//! The registry index: per-package version records with strict
//! uniqueness and ordering invariants, and the deterministic,
//! case-insensitive nesting rule that locates a package's entry file.

use vstd::prelude::*;

use crate::digest::is_hex_lower_digit;
use crate::errors::ValidationIssue;
use crate::version::is_digit;
use crate::version::spec_parse_version;
use crate::version::Version;

verus! {

pub const SLASH: u8 = 47;

/// ASCII lowercasing of a single byte.
pub open spec fn lower_byte(b: u8) -> u8 {
    if 65 <= b <= 90 {
        (b + 32) as u8
    } else {
        b
    }
}

/// ASCII lowercasing of a byte string.
pub open spec fn lower(s: Seq<u8>) -> Seq<u8> {
    s.map(|i: int, b: u8| lower_byte(b))
}

/// A package name: non-empty, alphanumeric plus hyphen and underscore.
pub open spec fn name_byte_ok(b: u8) -> bool {
    is_digit(b) || (97 <= b <= 122) || (65 <= b <= 90) || b == 45 || b == 95
}

pub open spec fn valid_name(s: Seq<u8>) -> bool {
    1 <= s.len() && forall|i: int| 0 <= i < s.len() ==> name_byte_ok(#[trigger] s[i])
}

/// The nesting rule: the relative path of a name's index entry file,
/// compared and stored in lowercase. One-character names nest under `1`,
/// two-character names under `2`, three-character names under `3` and
/// the first character, longer names under their first two and next two
/// characters.
pub open spec fn nesting_path(name: Seq<u8>) -> Seq<u8> {
    let l = lower(name);
    if name.len() == 1 {
        seq![49u8, SLASH] + l
    } else if name.len() == 2 {
        seq![50u8, SLASH] + l
    } else if name.len() == 3 {
        seq![51u8, SLASH, l[0], SLASH] + l
    } else {
        l.subrange(0, 2) + seq![SLASH] + l.subrange(2, 4) + seq![SLASH] + l
    }
}

/// Lowercase a name.
pub fn lower_name(name: &Vec<u8>) -> (r: Vec<u8>)
    ensures
        r@ == lower(name@),
{
    let mut out: Vec<u8> = Vec::new();
    let mut k: usize = 0;
    while k < name.len()
        invariant
            k <= name.len(),
            out@ == lower(name@).take(k as int),
        decreases name.len() - k,
    {
        let b = name[k];
        if 65 <= b && b <= 90 {
            out.push(b + 32);
        } else {
            out.push(b);
        }
        proof {
            assert(lower(name@).take(k + 1) =~= lower(name@).take(k as int).push(
                lower_byte(name@[k as int]),
            ));
        }
        k += 1;
    }
    proof {
        assert(lower(name@).take(name@.len() as int) =~= lower(name@));
    }
    out
}

/// The relative path of the index entry file for a package name.
pub fn crate_path(name: &Vec<u8>) -> (r: Vec<u8>)
    requires
        name@.len() >= 1,
    ensures
        r@ == nesting_path(name@),
{
    let l = lower_name(name);
    let mut out: Vec<u8> = Vec::new();
    if name.len() == 1 {
        out.push(49);
        out.push(SLASH);
    } else if name.len() == 2 {
        out.push(50);
        out.push(SLASH);
    } else if name.len() == 3 {
        out.push(51);
        out.push(SLASH);
        out.push(l[0]);
        out.push(SLASH);
    } else {
        out.push(l[0]);
        out.push(l[1]);
        out.push(SLASH);
        out.push(l[2]);
        out.push(l[3]);
        out.push(SLASH);
    }
    let mut k: usize = 0;
    let ghost head = out@;
    while k < l.len()
        invariant
            k <= l.len(),
            out@ == head + l@.take(k as int),
        decreases l.len() - k,
    {
        out.push(l[k]);
        proof {
            assert(l@.take(k + 1) =~= l@.take(k as int).push(l@[k as int]));
        }
        k += 1;
    }
    proof {
        assert(l@.take(l@.len() as int) =~= l@);
        assert(out@ =~= nesting_path(name@));
    }
    out
}

/// One dependency of a published version: a package name and a version
/// requirement.
#[derive(Debug)]
pub struct Dependency {
    pub name: Vec<u8>,
    pub req: Vec<u8>,
}

/// One feature of a published version: its name and the features or
/// dependencies it enables.
#[derive(Debug)]
pub struct FeatureEntry {
    pub name: Vec<u8>,
    pub enables: Vec<Vec<u8>>,
}

/// One published version of a package: its metadata and the checksum of
/// its artifact. Once appended to the index a record never changes,
/// except that `yanked` may later be set.
#[derive(Debug)]
pub struct VersionRecord {
    pub name: Vec<u8>,
    pub vers: Vec<u8>,
    pub version: Version,
    pub deps: Vec<Dependency>,
    pub cksum: Vec<u8>,
    pub features: Vec<FeatureEntry>,
    pub yanked: bool,
}

impl VersionRecord {
    /// Well-formedness: a valid name, a version string that parses to
    /// the stored triple, and a 64-digit lowercase hexadecimal checksum.
    pub open spec fn wf(&self) -> bool {
        valid_name(self.name@) && spec_parse_version(self.vers@) == Some(self.version)
            && self.cksum@.len() == 64 && (forall|i: int|
            0 <= i < 64 ==> is_hex_lower_digit(#[trigger] self.cksum@[i]))
    }
}

/// All records of one package name, oldest first. The key is the
/// lowercased name, as the nesting rule compares case-insensitively.
#[derive(Debug)]
pub struct IndexEntry {
    pub name_key: Vec<u8>,
    pub records: Vec<VersionRecord>,
}

impl IndexEntry {
    /// Every record belongs to this key, is well-formed, and versions
    /// strictly increase in file order.
    pub open spec fn wf(&self) -> bool {
        self.name_key@.len() >= 1 && (forall|i: int|
            0 <= i < self.records@.len() ==> (#[trigger] self.records@[i]).wf() && lower(
                self.records@[i].name@,
            ) == self.name_key@) && (forall|i: int, j: int|
            0 <= i < j < self.records@.len() ==> self.records@[i].version.lt(
                self.records@[j].version,
            ))
    }
}

/// The in-memory model of the on-disk index: one entry per published
/// package name.
#[derive(Debug)]
pub struct Index {
    pub entries: Vec<IndexEntry>,
}

impl Index {
    /// Entry keys are distinct and every entry is well-formed.
    pub open spec fn wf(&self) -> bool {
        (forall|i: int, j: int|
            0 <= i < j < self.entries@.len() ==> (#[trigger] self.entries@[i]).name_key@ != (
            #[trigger] self.entries@[j]).name_key@) && (forall|i: int|
            0 <= i < self.entries@.len() ==> (#[trigger] self.entries@[i]).wf())
    }

    pub open spec fn has_entry(&self, key: Seq<u8>) -> bool {
        exists|i: int| 0 <= i < self.entries@.len() && (#[trigger] self.entries@[i]).name_key@
            == key
    }

    pub open spec fn entry_index(&self, key: Seq<u8>) -> int {
        choose|i: int| 0 <= i < self.entries@.len() && (#[trigger] self.entries@[i]).name_key@
            == key
    }

    /// The records stored under a (lowercased) name key, oldest first;
    /// empty if the name was never published.
    pub open spec fn records_for(&self, key: Seq<u8>) -> Seq<VersionRecord> {
        if self.has_entry(key) {
            self.entries@[self.entry_index(key)].records@
        } else {
            Seq::empty()
        }
    }

    /// A fresh, empty index.
    pub fn new() -> (r: Index)
        ensures
            r.wf(),
            forall|key: Seq<u8>| r.records_for(key) == Seq::<VersionRecord>::empty(),
    {
        let entries: Vec<IndexEntry> = Vec::new();
        Index { entries }
    }

    /// Find the position of a key's entry.
    fn find_entry(&self, key: &Vec<u8>) -> (r: Option<usize>)
        ensures
            match r {
                Some(i) => i < self.entries@.len() && self.entries@[i as int].name_key@ == key@
                    && self.has_entry(key@),
                None => !self.has_entry(key@),
            },
    {
        let mut k: usize = 0;
        while k < self.entries.len()
            invariant
                k <= self.entries.len(),
                forall|i: int| 0 <= i < k ==> (#[trigger] self.entries@[i]).name_key@ != key@,
            decreases self.entries.len() - k,
        {
            if eq_bytes(&self.entries[k].name_key, key) {
                return Some(k);
            }
            k += 1;
        }
        None
    }

    /// The records published under a name, oldest first; the borrowed
    /// entry, or nothing if the name was never published.
    pub fn lookup<'a>(&'a self, name: &Vec<u8>) -> (r: Option<&'a IndexEntry>)
        requires
            self.wf(),
        ensures
            match r {
                Some(e) => self.has_entry(lower(name@)) && e.records@ == self.records_for(
                    lower(name@),
                ) && e.name_key@ == lower(name@),
                None => !self.has_entry(lower(name@)) && self.records_for(lower(name@))
                    == Seq::<VersionRecord>::empty(),
            },
    {
        let key = lower_name(name);
        match self.find_entry(&key) {
            Some(i) => {
                proof {
                    self.lemma_entry_index_is(i as int, key@);
                }
                Some(&self.entries[i])
            },
            None => None,
        }
    }

    /// With distinct keys, the entry found at `i` is the entry chosen
    /// for its key.
    proof fn lemma_entry_index_is(&self, i: int, key: Seq<u8>)
        requires
            self.wf(),
            0 <= i < self.entries@.len(),
            self.entries@[i].name_key@ == key,
        ensures
            self.has_entry(key),
            self.entry_index(key) == i,
    {
        assert(self.has_entry(key));
        let j = self.entry_index(key);
        if j != i {
            if j < i {
                assert(self.entries@[j].name_key@ != self.entries@[i].name_key@);
            } else {
                assert(self.entries@[i].name_key@ != self.entries@[j].name_key@);
            }
        }
    }

    /// Append a record for its package, enforcing uniqueness and
    /// monotonicity: a record whose version is already present is
    /// rejected as a duplicate; one not strictly newer than every stored
    /// version is rejected as non-monotonic; otherwise the record
    /// becomes the last record of its entry and nothing else changes.
    pub fn append_version(&mut self, record: VersionRecord) -> (r: Result<(), ValidationIssue>)
        requires
            old(self).wf(),
            record.wf(),
        ensures
            final(self).wf(),
            match r {
                Ok(()) => {
                    &&& forall|i: int|
                        0 <= i < old(self).records_for(lower(record.name@)).len() ==> old(
                            self,
                        ).records_for(lower(record.name@))[i].version.lt(record.version)
                    &&& final(self).records_for(lower(record.name@)) == old(self).records_for(
                        lower(record.name@),
                    ).push(record)
                },
                Err(ValidationIssue::DuplicateVersion) => {
                    &&& exists|i: int|
                        0 <= i < old(self).records_for(lower(record.name@)).len() && old(
                            self,
                        ).records_for(lower(record.name@))[i].version == record.version
                    &&& *final(self) == *old(self)
                },
                Err(ValidationIssue::NonMonotonicVersion) => {
                    &&& !(exists|i: int|
                        0 <= i < old(self).records_for(lower(record.name@)).len() && old(
                            self,
                        ).records_for(lower(record.name@))[i].version == record.version)
                    &&& !(forall|i: int|
                        0 <= i < old(self).records_for(lower(record.name@)).len() ==> old(
                            self,
                        ).records_for(lower(record.name@))[i].version.lt(record.version))
                    &&& *final(self) == *old(self)
                },
                _ => false,
            },
            forall|key: Seq<u8>|
                key != lower(record.name@) ==> final(self).records_for(key) == old(
                    self,
                ).records_for(key),
    {
        let key = lower_name(&record.name);
        match self.find_entry(&key) {
            Some(i) => {
                proof {
                    self.lemma_entry_index_is(i as int, key@);
                }
                let n = self.entries[i].records.len();
                let mut k: usize = 0;
                while k < n
                    invariant
                        k <= n,
                        *self == *old(self),
                        self.wf(),
                        record.wf(),
                        key@ == lower(record.name@),
                        i < self.entries@.len(),
                        self.entries@[i as int].name_key@ == key@,
                        self.has_entry(key@),
                        self.entry_index(key@) == i as int,
                        n == self.entries@[i as int].records@.len(),
                        forall|m: int|
                            0 <= m < k ==> self.entries@[i as int].records@[m].version
                                != record.version,
                    decreases n - k,
                {
                    let stored = Ghost(self.entries@[i as int].records@[k as int].version);
                    let eq = {
                        let a = &self.entries[i].records[k].version;
                        a.major == record.version.major && a.minor == record.version.minor
                            && a.patch == record.version.patch
                    };
                    if eq {
                        proof {
                            assert(stored@ == record.version);
                            assert(old(self).records_for(lower(record.name@))[k as int].version
                                == record.version);
                        }
                        return Err(ValidationIssue::DuplicateVersion);
                    }
                    k += 1;
                }
                if n > 0 {
                    let newest = Ghost(self.entries@[i as int].records@[n - 1].version);
                    let ok = record.version.greater_than(&self.entries[i].records[n - 1].version);
                    if !ok {
                        proof {
                            let ghost rs = old(self).records_for(lower(record.name@));
                            assert(rs == self.entries@[i as int].records@);
                            assert(!newest@.lt(record.version));
                            assert(rs[n - 1].version == newest@);
                            assert(!(rs[n - 1].version.lt(record.version)));
                            assert(forall|m: int| 0 <= m < n ==> rs[m].version != record.version);
                        }
                        return Err(ValidationIssue::NonMonotonicVersion);
                    }
                    proof {
                        assert(forall|m: int|
                            0 <= m < n - 1 ==> self.entries@[i as int].records@[m].version.lt(
                                newest@,
                            ));
                        assert(forall|m: int|
                            0 <= m < n ==> self.entries@[i as int].records@[m].version.lt(
                                record.version,
                            ));
                    }
                }
                let ghost oldself = *self;
                let mut entry = self.entries.remove(i);
                entry.records.push(record);
                self.entries.insert(i, entry);
                proof {
                    assert(self.entries@ =~= oldself.entries@.update(
                        i as int,
                        self.entries@[i as int],
                    ));
                    assert(self.entries@[i as int].records@ == oldself.entries@[
                        i as int].records@.push(record));
                    assert(self.entries@[i as int].name_key@ == key@);
                    assert(self.wf()) by {
                        assert(forall|m: int|
                            0 <= m < self.entries@.len() && m != i ==> self.entries@[m]
                                == oldself.entries@[m]);
                        assert(self.entries@[i as int].wf());
                    }
                    self.lemma_entry_index_is(i as int, key@);
                    assert(final(self).records_for(key@) =~= old(self).records_for(key@).push(
                        record,
                    ));
                    assert forall|key2: Seq<u8>| key2 != key@ implies self.records_for(key2)
                        == oldself.records_for(key2) by {
                        self.lemma_other_keys(oldself, i as int, key2);
                    }
                }
                Ok(())
            },
            None => {
                let ghost oldself = *self;
                let mut records: Vec<VersionRecord> = Vec::new();
                records.push(record);
                let entry = IndexEntry { name_key: key, records };
                let ghost ekey = entry.name_key@;
                self.entries.push(entry);
                proof {
                    let n = oldself.entries@.len() as int;
                    assert(self.entries@[n].name_key@ == ekey);
                    assert(forall|m: int|
                        0 <= m < n ==> self.entries@[m] == oldself.entries@[m]);
                    assert(self.entries@[n].wf());
                    assert(self.wf());
                    self.lemma_entry_index_is(n, ekey);
                    assert(old(self).records_for(ekey) =~= Seq::<VersionRecord>::empty());
                    assert(final(self).records_for(ekey) =~= Seq::<
                        VersionRecord,
                    >::empty().push(record));
                    assert forall|key2: Seq<u8>| key2 != ekey implies self.records_for(key2)
                        == oldself.records_for(key2) by {
                        self.lemma_other_keys_push(oldself, key2);
                    }
                }
                Ok(())
            },
        }
    }

    /// Replacing one entry leaves every other key's records unchanged.
    proof fn lemma_other_keys(&self, older: Index, i: int, key2: Seq<u8>)
        requires
            self.wf(),
            older.wf(),
            self.entries@.len() == older.entries@.len(),
            0 <= i < self.entries@.len(),
            forall|m: int|
                0 <= m < self.entries@.len() && m != i ==> self.entries@[m] == older.entries@[m],
            key2 != self.entries@[i].name_key@,
            key2 != older.entries@[i].name_key@,
        ensures
            self.records_for(key2) == older.records_for(key2),
    {
        if self.has_entry(key2) {
            let m = self.entry_index(key2);
            assert(older.entries@[m].name_key@ == key2);
            assert(older.has_entry(key2));
        }
        if older.has_entry(key2) {
            let m = older.entry_index(key2);
            assert(self.entries@[m].name_key@ == key2);
            assert(self.has_entry(key2));
        }
        if self.has_entry(key2) && older.has_entry(key2) {
            let a = self.entry_index(key2);
            let b = older.entry_index(key2);
            assert(self.entries@[a].name_key@ == key2);
            assert(older.entries@[b].name_key@ == key2);
            assert(b != i);
            assert(self.entries@[b].name_key@ == key2);
            if a != b {
                if a < b {
                    assert(self.entries@[a].name_key@ != self.entries@[b].name_key@);
                } else {
                    assert(self.entries@[b].name_key@ != self.entries@[a].name_key@);
                }
            }
            assert(a == b);
            assert(a != i);
            assert(self.entries@[a].records@ == older.entries@[a].records@);
        }
    }

    /// Appending a new entry leaves every other key's records unchanged.
    proof fn lemma_other_keys_push(&self, older: Index, key2: Seq<u8>)
        requires
            self.wf(),
            older.wf(),
            self.entries@.len() == older.entries@.len() + 1,
            forall|m: int|
                0 <= m < older.entries@.len() ==> self.entries@[m] == older.entries@[m],
            key2 != self.entries@[older.entries@.len() as int].name_key@,
        ensures
            self.records_for(key2) == older.records_for(key2),
    {
        let n = older.entries@.len() as int;
        if self.has_entry(key2) {
            let m = self.entry_index(key2);
            assert(m != n);
            assert(older.entries@[m].name_key@ == key2);
            assert(older.has_entry(key2));
        }
        if older.has_entry(key2) {
            let m = older.entry_index(key2);
            assert(self.entries@[m].name_key@ == key2);
            assert(self.has_entry(key2));
        }
        if self.has_entry(key2) && older.has_entry(key2) {
            let a = self.entry_index(key2);
            let b = older.entry_index(key2);
            assert(self.entries@[a].name_key@ == key2);
            assert(a != n);
            assert(self.entries@[b].name_key@ == key2);
            if a != b {
                if a < b {
                    assert(self.entries@[a].name_key@ != self.entries@[b].name_key@);
                } else {
                    assert(self.entries@[b].name_key@ != self.entries@[a].name_key@);
                }
            }
            assert(a == b);
            assert(self.entries@[a].records@ == older.entries@[a].records@);
        }
    }
}


/// Check a package name's charset.
pub fn valid_name_check(name: &Vec<u8>) -> (r: bool)
    ensures
        r == valid_name(name@),
{
    if name.len() < 1 {
        return false;
    }
    let mut k: usize = 0;
    while k < name.len()
        invariant
            k <= name.len(),
            forall|i: int| 0 <= i < k ==> name_byte_ok(#[trigger] name@[i]),
        decreases name.len() - k,
    {
        let b = name[k];
        let ok = (48 <= b && b <= 57) || (97 <= b && b <= 122) || (65 <= b && b <= 90) || b == 45
            || b == 95;
        if !ok {
            return false;
        }
        k += 1;
    }
    true
}

/// Byte-for-byte equality of two byte strings.
pub fn eq_bytes(a: &Vec<u8>, b: &Vec<u8>) -> (r: bool)
    ensures
        r == (a@ == b@),
{
    if a.len() != b.len() {
        proof {
            assert(a@ != b@);
        }
        return false;
    }
    let mut k: usize = 0;
    while k < a.len()
        invariant
            k <= a.len(),
            a@.len() == b@.len(),
            forall|i: int| 0 <= i < k ==> a@[i] == b@[i],
        decreases a.len() - k,
    {
        if a[k] != b[k] {
            return false;
        }
        k += 1;
    }
    proof {
        assert(a@ =~= b@);
    }
    true
}

/// With strictly increasing versions enforced on every append, the
/// records under any name always come back in ascending version order:
/// any two records in lookup order compare strictly.
pub proof fn lemma_lookup_ordered(idx: Index, key: Seq<u8>)
    requires
        idx.wf(),
    ensures
        forall|i: int, j: int|
            0 <= i < j < idx.records_for(key).len() ==> idx.records_for(key)[i].version.lt(
                idx.records_for(key)[j].version,
            ),
{
    if idx.has_entry(key) {
        let e = idx.entry_index(key);
        assert(idx.entries@[e].wf());
    }
}

} // verus!
