//! The closed set of error kinds the registry produces, each carrying an
//! ordered chain of human-readable cause strings (outermost first).

use vstd::prelude::*;

verus! {

/// A single error detail that the registry returns in a response body.
#[derive(Debug)]
pub struct RegistryError {
    /// The human-readable description, as bytes of ASCII-compatible text.
    pub detail: Vec<u8>,
}

/// The list of errors that the registry returns in its response.
#[derive(Debug)]
pub struct RegistryErrors {
    pub errors: Vec<RegistryError>,
}

/// The details carried by a list of registry errors, in order.
pub open spec fn details_of(errs: Seq<RegistryError>) -> Seq<Seq<u8>> {
    errs.map(|i: int, e: RegistryError| e.detail@)
}

pub proof fn lemma_details_of_push(errs: Seq<RegistryError>, e: RegistryError)
    ensures
        details_of(errs.push(e)) == details_of(errs).push(e.detail@),
{
    assert(details_of(errs.push(e)) =~= details_of(errs).push(e.detail@));
}

impl RegistryErrors {
    /// The details as a sequence of byte strings, outermost cause first.
    pub open spec fn details(&self) -> Seq<Seq<u8>> {
        details_of(self.errors@)
    }
}

/// The reasons a publish can be rejected during validation.
#[derive(Clone, Copy, PartialEq, Eq, Structural, Debug)]
pub enum ValidationIssue {
    BadName,
    BadVersion,
    BadDependency,
    DuplicateVersion,
    NonMonotonicVersion,
}

/// The closed set of failure kinds the registry produces.
#[derive(Clone, Copy, PartialEq, Eq, Structural, Debug)]
pub enum FailureKind {
    IndexInitFailure,
    BindFailure,
    DecodeFailure,
    ValidationFailure(ValidationIssue),
    PersistFailure,
    InternalEncodingFailure,
}

/// A failure with its ordered chain of human-readable causes, outermost
/// first.
#[derive(Debug)]
pub struct RegistryFailure {
    pub kind: FailureKind,
    pub causes: Vec<Vec<u8>>,
}

impl RegistryFailure {
    /// The cause chain as byte strings, outermost first.
    pub open spec fn cause_chain(&self) -> Seq<Seq<u8>> {
        self.causes@.map(|i: int, c: Vec<u8>| c@)
    }

    /// Turn the cause chain into the response's error list, one detail
    /// per cause, in order.
    pub fn to_registry_errors(&self) -> (r: RegistryErrors)
        ensures
            r.details() == self.cause_chain(),
    {
        let mut errors: Vec<RegistryError> = Vec::new();
        let mut k: usize = 0;
        proof {
            assert(details_of(errors@) =~= self.cause_chain().take(0));
        }
        while k < self.causes.len()
            invariant
                k <= self.causes.len(),
                details_of(errors@) == self.cause_chain().take(k as int),
            decreases self.causes.len() - k,
        {
            let mut detail: Vec<u8> = Vec::new();
            let mut b: usize = 0;
            while b < self.causes[k].len()
                invariant
                    k < self.causes.len(),
                    b <= self.causes[k as int].len(),
                    detail@ == self.causes[k as int]@.take(b as int),
                decreases self.causes[k as int].len() - b,
            {
                detail.push(self.causes[k][b]);
                proof {
                    assert(self.causes[k as int]@.take(b + 1) =~= self.causes[k as int]@.take(
                        b as int,
                    ).push(self.causes[k as int]@[b as int]));
                }
                b += 1;
            }
            proof {
                assert(self.causes[k as int]@.take(self.causes[k as int]@.len() as int)
                    =~= self.causes[k as int]@);
            }
            let e = RegistryError { detail };
            let ghost prev = errors@;
            let ghost ev = e;
            errors.push(e);
            proof {
                lemma_details_of_push(prev, ev);
                assert(details_of(errors@) =~= self.cause_chain().take(k + 1));
            }
            k += 1;
        }
        proof {
            assert(self.cause_chain().take(self.causes@.len() as int) =~= self.cause_chain());
        }
        RegistryErrors { errors }
    }
}

} // verus!
