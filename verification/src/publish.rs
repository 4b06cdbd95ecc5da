//! The publish pipeline: decode the two-segment binary upload, validate
//! the metadata, compute the artifact checksum, and plan the writes that
//! extend the registry — rejecting anything the index would not accept,
//! before any byte is persisted.

use vstd::prelude::*;

use crate::digest::hex_of;
use crate::digest::lemma_hex_of_wf;
use crate::digest::sha256;
use crate::digest::sha256_of;
use crate::digest::to_hex;
use crate::errors::FailureKind;
use crate::errors::RegistryFailure;
use crate::errors::ValidationIssue;
use crate::index::crate_path;
use crate::index::lower;
use crate::index::name_byte_ok;
use crate::index::nesting_path;
use crate::index::valid_name;
use crate::index::valid_name_check;
use crate::index::Dependency;
use crate::index::FeatureEntry;
use crate::index::Index;
use crate::index::VersionRecord;
use crate::index::SLASH;
use crate::json::bytes_at;
use crate::json::has_prefix_at;
use crate::json::push_raw;
use crate::record::deps_view;
use crate::record::enc_record;
use crate::record::encode_record;
use crate::record::exec_deps_block;
use crate::record::exec_features_block;
use crate::record::exec_jstring;
use crate::record::features_view;
use crate::record::lit_deps_key;
use crate::record::lit_features_key;
use crate::record::lit_name_key;
use crate::record::lit_vers_key;
use crate::record::parse_deps_block;
use crate::record::parse_features_block;
use crate::record::parse_jstring;
use crate::record::vec_deps_key;
use crate::record::vec_features_key;
use crate::record::vec_name_key;
use crate::record::vec_vers_key;
use crate::version::parse_version;
use crate::version::spec_parse_version;

verus! {

/// The most bytes an upload body may hold; larger requests are rejected
/// at the request boundary before the pipeline runs.
pub const MAX_BODY_BYTES: usize = 2097152;

/// Whether an upload body is within the configured size bound.
pub fn body_within_limit(body: &Vec<u8>) -> (r: bool)
    ensures
        r == (body@.len() <= MAX_BODY_BYTES),
{
    body.len() <= MAX_BODY_BYTES
}

/// A little-endian 32-bit length at position `i` (four bytes available).
pub open spec fn le32_at(s: Seq<u8>, i: int) -> int {
    s[i] + 256 * (s[i + 1] + 256 * (s[i + 2] + 256 * s[i + 3]))
}

/// Split the two-segment upload body: a 4-byte little-endian length and
/// that many metadata bytes, then a 4-byte little-endian length and that
/// many archive bytes. Trailing bytes are ignored.
pub open spec fn spec_split_body(s: Seq<u8>) -> Option<(Seq<u8>, Seq<u8>)> {
    if s.len() < 4 {
        None
    } else {
        let l1 = le32_at(s, 0);
        if s.len() < 8 + l1 {
            None
        } else {
            let l2 = le32_at(s, 4 + l1);
            if s.len() < 8 + l1 + l2 {
                None
            } else {
                Some((s.subrange(4, 4 + l1), s.subrange(8 + l1, 8 + l1 + l2)))
            }
        }
    }
}

/// Copy the bytes `s[lo..hi]`.
fn copy_range(s: &Vec<u8>, lo: usize, hi: usize) -> (r: Vec<u8>)
    requires
        lo <= hi <= s.len(),
    ensures
        r@ == s@.subrange(lo as int, hi as int),
{
    let mut out: Vec<u8> = Vec::new();
    let mut k = lo;
    while k < hi
        invariant
            lo <= k <= hi <= s.len(),
            out@ == s@.subrange(lo as int, k as int),
        decreases hi - k,
    {
        out.push(s[k]);
        proof {
            assert(s@.subrange(lo as int, k + 1) =~= s@.subrange(lo as int, k as int).push(
                s@[k as int],
            ));
        }
        k += 1;
    }
    out
}

/// Read the little-endian length at `i` (requires four bytes available).
fn read_le32(s: &Vec<u8>, i: usize) -> (r: u64)
    requires
        i + 4 <= s.len(),
    ensures
        r == le32_at(s@, i as int),
        r < 4294967296,
{
    (s[i] as u64) + 256 * ((s[i + 1] as u64) + 256 * ((s[i + 2] as u64) + 256 * (s[i + 3] as u64)))
}

/// Split an upload body into its metadata and archive segments.
pub fn split_body(s: &Vec<u8>) -> (r: Option<(Vec<u8>, Vec<u8>)>)
    ensures
        match r {
            Some(p) => spec_split_body(s@) == Some((p.0@, p.1@)),
            None => spec_split_body(s@) is None,
        },
{
    if s.len() < 4 {
        return None;
    }
    let l1 = read_le32(s, 0);
    if (s.len() as u64) < 8 + l1 {
        return None;
    }
    let l1 = l1 as usize;
    let l2 = read_le32(s, 4 + l1);
    if ((s.len() - 8 - l1) as u64) < l2 {
        return None;
    }
    let l2 = l2 as usize;
    let meta = copy_range(s, 4, 4 + l1);
    let archive = copy_range(s, 8 + l1, 8 + l1 + l2);
    Some((meta, archive))
}

/// Parse the metadata segment: the name, version string, dependencies
/// and features, in canonical order; anything after the feature map is
/// ignored for forward compatibility.
pub open spec fn parse_meta_parts(s: Seq<u8>) -> Option<
    (Seq<u8>, Seq<u8>, Seq<(Seq<u8>, Seq<u8>)>, Seq<(Seq<u8>, Seq<Seq<u8>>)>),
> {
    if has_prefix_at(s, 0, lit_name_key()) {
        match parse_jstring(s, 8) {
            Some((name, a)) => {
                if has_prefix_at(s, a, lit_vers_key()) {
                    match parse_jstring(s, a + 8) {
                        Some((vers, b)) => {
                            if has_prefix_at(s, b, lit_deps_key()) {
                                match parse_deps_block(s, b + 9) {
                                    Some((deps, c)) => {
                                        if has_prefix_at(s, c, lit_features_key()) {
                                            match parse_features_block(s, c + 13) {
                                                Some((fs, _e)) => Some((name, vers, deps, fs)),
                                                None => None,
                                            }
                                        } else {
                                            None
                                        }
                                    },
                                    None => None,
                                }
                            } else {
                                None
                            }
                        },
                        None => None,
                    }
                } else {
                    None
                }
            },
            None => None,
        }
    } else {
        None
    }
}

/// Parse the metadata segment into its exec form.
pub fn parse_meta(s: &Vec<u8>) -> (r: Option<(Vec<u8>, Vec<u8>, Vec<Dependency>, Vec<FeatureEntry>)>)
    ensures
        match r {
            Some(p) => parse_meta_parts(s@) == Some(
                (p.0@, p.1@, deps_view(p.2@), features_view(p.3@)),
            ),
            None => parse_meta_parts(s@) is None,
        },
{
    if !bytes_at(s, 0, &vec_name_key()) {
        return None;
    }
    let (name, a) = match exec_jstring(s, 8) {
        Some(p) => p,
        None => {
            return None;
        },
    };
    if !bytes_at(s, a, &vec_vers_key()) {
        return None;
    }
    let (vers, b) = match exec_jstring(s, a + 8) {
        Some(p) => p,
        None => {
            return None;
        },
    };
    if !bytes_at(s, b, &vec_deps_key()) {
        return None;
    }
    let (deps, c) = match exec_deps_block(s, b + 9) {
        Some(p) => p,
        None => {
            return None;
        },
    };
    if !bytes_at(s, c, &vec_features_key()) {
        return None;
    }
    match exec_features_block(s, c + 13) {
        Some((features, _e)) => Some((name, vers, deps, features)),
        None => None,
    }
}

/// A version requirement's charset: the name charset plus the operators
/// and separators of requirement syntax.
pub open spec fn req_byte_ok(b: u8) -> bool {
    name_byte_ok(b) || b == 46 || b == 44 || b == 32 || b == 94 || b == 126 || b == 42 || b == 60
        || b == 62 || b == 61 || b == 43
}

pub open spec fn valid_req(s: Seq<u8>) -> bool {
    1 <= s.len() && forall|i: int| 0 <= i < s.len() ==> req_byte_ok(#[trigger] s[i])
}

/// A syntactically valid dependency: a valid package name and a
/// non-empty requirement in the requirement charset.
pub open spec fn valid_dep_pair(p: (Seq<u8>, Seq<u8>)) -> bool {
    valid_name(p.0) && valid_req(p.1)
}

pub open spec fn all_deps_valid(ds: Seq<(Seq<u8>, Seq<u8>)>) -> bool {
    forall|i: int| 0 <= i < ds.len() ==> valid_dep_pair(#[trigger] ds[i])
}

/// Check one requirement's charset.
fn valid_req_check(s: &Vec<u8>) -> (r: bool)
    ensures
        r == valid_req(s@),
{
    if s.len() < 1 {
        return false;
    }
    let mut k: usize = 0;
    while k < s.len()
        invariant
            k <= s.len(),
            forall|i: int| 0 <= i < k ==> req_byte_ok(#[trigger] s@[i]),
        decreases s.len() - k,
    {
        let b = s[k];
        let ok = (48 <= b && b <= 57) || (97 <= b && b <= 122) || (65 <= b && b <= 90) || b == 45
            || b == 95 || b == 46 || b == 44 || b == 32 || b == 94 || b == 126 || b == 42 || b == 60
            || b == 62 || b == 61 || b == 43;
        if !ok {
            return false;
        }
        k += 1;
    }
    true
}

/// Check every dependency.
fn deps_valid_check(ds: &Vec<Dependency>) -> (r: bool)
    ensures
        r == all_deps_valid(deps_view(ds@)),
{
    let mut k: usize = 0;
    while k < ds.len()
        invariant
            k <= ds.len(),
            forall|i: int| 0 <= i < k ==> valid_dep_pair(#[trigger] deps_view(ds@)[i]),
        decreases ds.len() - k,
    {
        if !valid_name_check(&ds[k].name) || !valid_req_check(&ds[k].req) {
            proof {
                assert(deps_view(ds@)[k as int] == (ds@[k as int].name@, ds@[k as int].req@));
            }
            return false;
        }
        proof {
            assert(deps_view(ds@)[k as int] == (ds@[k as int].name@, ds@[k as int].req@));
        }
        k += 1;
    }
    true
}

/// `crates/`
pub open spec fn lit_crates_dir() -> Seq<u8> {
    seq![99u8, 114, 97, 116, 101, 115, 47]
}

/// `.crate`
pub open spec fn lit_dot_crate() -> Seq<u8> {
    seq![46u8, 99, 114, 97, 116, 101]
}

/// The deterministic relative storage path of an artifact:
/// `crates/<name>/<name>-<vers>.crate`, with the name lowercased.
pub open spec fn artifact_path(name: Seq<u8>, vers: Seq<u8>) -> Seq<u8> {
    lit_crates_dir() + lower(name) + seq![SLASH] + lower(name) + seq![45u8] + vers
        + lit_dot_crate()
}

/// Build the artifact path for a name and version string.
pub fn build_artifact_path(name: &Vec<u8>, vers: &Vec<u8>) -> (r: Vec<u8>)
    ensures
        r@ == artifact_path(name@, vers@),
{
    let lowered = crate::index::lower_name(name);
    let mut out: Vec<u8> = Vec::new();
    out.push(99);
    out.push(114);
    out.push(97);
    out.push(116);
    out.push(101);
    out.push(115);
    out.push(47);
    proof {
        assert(out@ =~= lit_crates_dir());
    }
    push_raw(&mut out, &lowered);
    out.push(SLASH);
    push_raw(&mut out, &lowered);
    out.push(45);
    push_raw(&mut out, vers);
    out.push(46);
    out.push(99);
    out.push(114);
    out.push(97);
    out.push(116);
    out.push(101);
    proof {
        assert(out@ =~= artifact_path(name@, vers@));
    }
    out
}

/// Everything the request boundary must persist for one accepted
/// publish: the record and its encoded line, the index entry file's
/// relative path, and the artifact bytes with their relative path. The
/// artifact is written first; the index line is appended, flushed, only
/// after it, so the index never references a missing artifact.
#[derive(Debug)]
pub struct PublishPlan {
    pub record: VersionRecord,
    pub index_path: Vec<u8>,
    pub index_line: Vec<u8>,
    pub artifact_path: Vec<u8>,
    pub archive: Vec<u8>,
}

/// What an accepted publish of `body` against `index` must have
/// produced: the plan's record carries exactly the decoded metadata plus
/// the archive's checksum, the paths and the line follow from it, and
/// the record's version is strictly newer than everything stored under
/// its name.
pub open spec fn publish_accepted(body: Seq<u8>, index: Index, plan: PublishPlan) -> bool {
    &&& spec_split_body(body) is Some
    &&& parse_meta_parts(spec_split_body(body).unwrap().0) is Some
    &&& {
        let meta = parse_meta_parts(spec_split_body(body).unwrap().0).unwrap();
        let archive = spec_split_body(body).unwrap().1;
        &&& valid_name(meta.0)
        &&& spec_parse_version(meta.1) is Some
        &&& all_deps_valid(meta.2)
        &&& plan.record.name@ == meta.0
        &&& plan.record.vers@ == meta.1
        &&& Some(plan.record.version) == spec_parse_version(meta.1)
        &&& deps_view(plan.record.deps@) == meta.2
        &&& features_view(plan.record.features@) == meta.3
        &&& plan.record.cksum@ == hex_of(sha256_of(archive))
        &&& plan.record.yanked == false
        &&& plan.record.wf()
        &&& plan.archive@ == archive
        &&& plan.index_path@ == nesting_path(meta.0)
        &&& plan.artifact_path@ == artifact_path(meta.0, meta.1)
        &&& plan.index_line@ == enc_record(plan.record)
        &&& forall|i: int|
            0 <= i < index.records_for(lower(meta.0)).len() ==> (#[trigger] index.records_for(
                lower(meta.0),
            )[i]).version.lt(plan.record.version)
    }
}

/// On which bodies each failure kind is produced, given the index: the
/// pipeline rejects with exactly one kind, named after the first step
/// that fails.
pub open spec fn publish_rejected(body: Seq<u8>, index: Index, kind: FailureKind) -> bool {
    match kind {
        FailureKind::DecodeFailure => spec_split_body(body) is None || parse_meta_parts(
            spec_split_body(body).unwrap().0,
        ) is None,
        FailureKind::ValidationFailure(issue) => {
            let meta = parse_meta_parts(spec_split_body(body).unwrap().0).unwrap();
            &&& spec_split_body(body) is Some
            &&& parse_meta_parts(spec_split_body(body).unwrap().0) is Some
            &&& match issue {
                ValidationIssue::BadName => !valid_name(meta.0),
                ValidationIssue::BadVersion => valid_name(meta.0) && spec_parse_version(
                    meta.1,
                ) is None,
                ValidationIssue::BadDependency => valid_name(meta.0) && spec_parse_version(
                    meta.1,
                ) is Some && !all_deps_valid(meta.2),
                ValidationIssue::DuplicateVersion => valid_name(meta.0) && spec_parse_version(
                    meta.1,
                ) is Some && all_deps_valid(meta.2) && (exists|i: int|
                    0 <= i < index.records_for(lower(meta.0)).len() && (
                    #[trigger] index.records_for(lower(meta.0))[i]).version
                        == spec_parse_version(meta.1).unwrap()),
                ValidationIssue::NonMonotonicVersion => valid_name(meta.0) && spec_parse_version(
                    meta.1,
                ) is Some && all_deps_valid(meta.2) && !(exists|i: int|
                    0 <= i < index.records_for(lower(meta.0)).len() && (
                    #[trigger] index.records_for(lower(meta.0))[i]).version
                        == spec_parse_version(meta.1).unwrap()) && !(forall|i: int|
                    0 <= i < index.records_for(lower(meta.0)).len() ==> (
                    #[trigger] index.records_for(lower(meta.0))[i]).version.lt(
                        spec_parse_version(meta.1).unwrap(),
                    )),
            }
        },
        _ => false,
    }
}

/// Decode, validate and plan one publish against the current index:
/// everything the upload determines is computed and checked here, and
/// nothing is mutated. Failures name the step that rejected the upload.
#[verifier::loop_isolation(false)]
#[verifier::rlimit(100)]
pub fn publish_crate(body: &Vec<u8>, index: &Index) -> (r: Result<PublishPlan, RegistryFailure>)
    requires
        index.wf(),
    ensures
        match r {
            Ok(plan) => publish_accepted(body@, *index, plan),
            Err(f) => publish_rejected(body@, *index, f.kind),
        },
{
    let (meta_bytes, archive) = match split_body(body) {
        Some(p) => p,
        None => {
            return Err(
                RegistryFailure {
                    kind: FailureKind::DecodeFailure,
                    causes: vec!["malformed upload body: truncated length-prefixed segments".as_bytes_vec()],
                },
            );
        },
    };
    let (name, vers, deps, features) = match parse_meta(&meta_bytes) {
        Some(p) => p,
        None => {
            return Err(
                RegistryFailure {
                    kind: FailureKind::DecodeFailure,
                    causes: vec!["malformed crate metadata".as_bytes_vec()],
                },
            );
        },
    };
    if !valid_name_check(&name) {
        return Err(
            RegistryFailure {
                kind: FailureKind::ValidationFailure(ValidationIssue::BadName),
                causes: vec!["invalid crate name".as_bytes_vec()],
            },
        );
    }
    let version = match parse_version(&vers) {
        Some(v) => v,
        None => {
            return Err(
                RegistryFailure {
                    kind: FailureKind::ValidationFailure(ValidationIssue::BadVersion),
                    causes: vec!["invalid semantic version".as_bytes_vec()],
                },
            );
        },
    };
    if !deps_valid_check(&deps) {
        return Err(
            RegistryFailure {
                kind: FailureKind::ValidationFailure(ValidationIssue::BadDependency),
                causes: vec!["invalid dependency specification".as_bytes_vec()],
            },
        );
    }
    match index.lookup(&name) {
        Some(entry) => {
            let n = entry.records.len();
            let ghost rs = index.records_for(lower(name@));
            let mut k: usize = 0;
            while k < n
                invariant
                    k <= n,
                    n == rs.len(),
                    rs == entry.records@,
                    entry.records@.len() == n,
                    forall|m: int| 0 <= m < k ==> rs[m].version != version,
                decreases n - k,
            {
                let a = &entry.records[k].version;
                if a.major == version.major && a.minor == version.minor && a.patch
                    == version.patch {
                    proof {
                        assert(rs[k as int].version == version);
                        assert(index.records_for(lower(name@))[k as int].version == version);
                        assert(spec_split_body(body@) == Some((meta_bytes@, archive@)));
                        assert(parse_meta_parts(meta_bytes@) == Some(
                            (name@, vers@, deps_view(deps@), features_view(features@)),
                        ));
                        assert(parse_meta_parts(spec_split_body(body@).unwrap().0).unwrap().0
                            == name@);
                        assert(valid_name(name@));
                        assert(spec_parse_version(vers@) == Some(version));
                        assert(all_deps_valid(deps_view(deps@)));
                        assert(exists|i: int|
                            0 <= i < index.records_for(lower(name@)).len() && (
                            #[trigger] index.records_for(lower(name@))[i]).version == version);
                        assert(publish_rejected(
                            body@,
                            *index,
                            FailureKind::ValidationFailure(ValidationIssue::DuplicateVersion),
                        ));
                    }
                    return Err(
                        RegistryFailure {
                            kind: FailureKind::ValidationFailure(ValidationIssue::DuplicateVersion),
                            causes: vec!["this version is already published".as_bytes_vec()],
                        },
                    );
                }
                k += 1;
            }
            if n > 0 {
                let ok = version.greater_than(&entry.records[n - 1].version);
                if !ok {
                    proof {
                        assert(!rs[n - 1].version.lt(version));
                        assert(!(index.records_for(lower(name@))[n - 1].version.lt(version)));
                        assert(forall|m: int|
                            0 <= m < index.records_for(lower(name@)).len() ==> (
                            #[trigger] index.records_for(lower(name@))[m]).version != version);
                        assert(spec_split_body(body@) == Some((meta_bytes@, archive@)));
                        assert(parse_meta_parts(meta_bytes@) == Some(
                            (name@, vers@, deps_view(deps@), features_view(features@)),
                        ));
                        assert(spec_parse_version(vers@) == Some(version));
                        let m0 = parse_meta_parts(spec_split_body(body@).unwrap().0).unwrap().0;
                        assert(m0 == name@);
                        assert(lower(m0) == lower(name@));
                        assert(forall|i: int|
                            0 <= i < index.records_for(lower(m0)).len() ==> (
                            #[trigger] index.records_for(lower(m0))[i]).version != version);
                        assert(!(index.records_for(lower(m0))[n - 1].version.lt(version)));
                        assert(exists|i: int|
                            0 <= i < index.records_for(lower(m0)).len() && !((
                            #[trigger] index.records_for(lower(m0))[i]).version.lt(version)));
                        assert(publish_rejected(
                            body@,
                            *index,
                            FailureKind::ValidationFailure(ValidationIssue::NonMonotonicVersion),
                        ));
                    }
                    return Err(
                        RegistryFailure {
                            kind: FailureKind::ValidationFailure(
                                ValidationIssue::NonMonotonicVersion,
                            ),
                            causes: vec!["version is not newer than the newest published version".as_bytes_vec()],
                        },
                    );
                }
                proof {
                    assert(forall|m: int|
                        0 <= m < n - 1 ==> (#[trigger] rs[m]).version.lt(rs[n - 1].version));
                    assert(forall|m: int| 0 <= m < n ==> (#[trigger] rs[m]).version.lt(version));
                }
            }
        },
        None => {},
    }
    let digest = sha256(&archive);
    let cksum = to_hex(&digest);
    proof {
        lemma_hex_of_wf(sha256_of(archive@));
    }
    let record = VersionRecord { name, vers, version, deps, cksum, features, yanked: false };
    let index_path = crate_path(&record.name);
    let artifact_rel = build_artifact_path(&record.name, &record.vers);
    let index_line = encode_record(&record);
    Ok(
        PublishPlan {
            record,
            index_path,
            index_line,
            artifact_path: artifact_rel,
            archive,
        },
    )
}

} // verus!
