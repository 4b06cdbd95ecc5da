//! The version-record line codec. Index entry files hold one JSON record
//! per line, in a fixed canonical field order:
//! `{"name":...,"vers":...,"deps":[...],"cksum":...,"features":{...},"yanked":...}`.
//! The upload metadata shares the name, version, dependency and feature
//! shapes, so their parsers live here too.

use vstd::prelude::*;

use crate::digest::hex64_check;
use crate::digest::is_hex_lower_digit;
use crate::index::valid_name;
use crate::index::valid_name_check;
use crate::index::Dependency;
use crate::index::FeatureEntry;
use crate::index::VersionRecord;
use crate::json::escaped;
use crate::json::has_prefix_at;
use crate::json::lemma_parse_strbody_bounds;
use crate::json::lemma_prefix_index;
use crate::json::bytes_at;
use crate::json::exec_strbody;
use crate::json::parse_strbody;
use crate::version::parse_version;
use crate::version::spec_parse_version;
use crate::json::push_escaped;
use crate::json::lemma_parse_strbody_of_escaped;
use crate::response::lemma_concat_prefix_at;
use crate::response::lemma_join_prefix_at;
use crate::json::COLON;
use crate::json::COMMA;
use crate::json::LBRACKET;
use crate::json::QUOTE;
use crate::json::RBRACE;
use crate::json::RBRACKET;

verus! {

/// `{"name":`
pub open spec fn lit_name_key() -> Seq<u8> {
    seq![123u8, 34, 110, 97, 109, 101, 34, 58]
}

/// `,"vers":`
pub open spec fn lit_vers_key() -> Seq<u8> {
    seq![44u8, 34, 118, 101, 114, 115, 34, 58]
}

/// `,"deps":[`
pub open spec fn lit_deps_key() -> Seq<u8> {
    seq![44u8, 34, 100, 101, 112, 115, 34, 58, 91]
}

/// `,"req":`
pub open spec fn lit_req_key() -> Seq<u8> {
    seq![44u8, 34, 114, 101, 113, 34, 58]
}

/// `,"cksum":`
pub open spec fn lit_cksum_key() -> Seq<u8> {
    seq![44u8, 34, 99, 107, 115, 117, 109, 34, 58]
}

/// `,"features":{`
pub open spec fn lit_features_key() -> Seq<u8> {
    seq![44u8, 34, 102, 101, 97, 116, 117, 114, 101, 115, 34, 58, 123]
}

/// `,"yanked":`
pub open spec fn lit_yanked_key() -> Seq<u8> {
    seq![44u8, 34, 121, 97, 110, 107, 101, 100, 34, 58]
}

/// `true`
pub open spec fn lit_true() -> Seq<u8> {
    seq![116u8, 114, 117, 101]
}

/// `false`
pub open spec fn lit_false() -> Seq<u8> {
    seq![102u8, 97, 108, 115, 101]
}

/// A JSON string: quoted and escaped.
pub open spec fn enc_str(s: Seq<u8>) -> Seq<u8> {
    seq![QUOTE] + escaped(s) + seq![QUOTE]
}

/// One encoded dependency object.
pub open spec fn enc_dep(d: Dependency) -> Seq<u8> {
    lit_name_key() + enc_str(d.name@) + lit_req_key() + enc_str(d.req@) + seq![RBRACE]
}

/// An encoded dependency list, comma-separated.
pub open spec fn enc_deps(ds: Seq<Dependency>) -> Seq<u8>
    decreases ds.len(),
{
    if ds.len() == 0 {
        Seq::empty()
    } else if ds.len() == 1 {
        enc_dep(ds[0])
    } else {
        enc_deps(ds.drop_last()) + seq![COMMA] + enc_dep(ds.last())
    }
}

/// An encoded string list, comma-separated.
pub open spec fn enc_strlist(vs: Seq<Vec<u8>>) -> Seq<u8>
    decreases vs.len(),
{
    if vs.len() == 0 {
        Seq::empty()
    } else if vs.len() == 1 {
        enc_str(vs[0]@)
    } else {
        enc_strlist(vs.drop_last()) + seq![COMMA] + enc_str(vs.last()@)
    }
}

/// One encoded feature: its name and the bracketed list it enables.
pub open spec fn enc_feature(f: FeatureEntry) -> Seq<u8> {
    enc_str(f.name@) + seq![COLON, LBRACKET] + enc_strlist(f.enables@) + seq![RBRACKET]
}

/// An encoded feature map, comma-separated.
pub open spec fn enc_features(fs: Seq<FeatureEntry>) -> Seq<u8>
    decreases fs.len(),
{
    if fs.len() == 0 {
        Seq::empty()
    } else if fs.len() == 1 {
        enc_feature(fs[0])
    } else {
        enc_features(fs.drop_last()) + seq![COMMA] + enc_feature(fs.last())
    }
}

/// A whole encoded version record, in canonical field order.
pub open spec fn enc_record(r: VersionRecord) -> Seq<u8> {
    lit_name_key() + enc_str(r.name@) + lit_vers_key() + enc_str(r.vers@) + lit_deps_key()
        + enc_deps(r.deps@) + seq![RBRACKET] + lit_cksum_key() + enc_str(r.cksum@)
        + lit_features_key() + enc_features(r.features@) + seq![RBRACE] + lit_yanked_key() + (
    if r.yanked {
        lit_true()
    } else {
        lit_false()
    }) + seq![RBRACE]
}


/// Append the literal key `name_key` bytes to `out`.
fn push_name_key(out: &mut Vec<u8>)
    ensures
        final(out)@ == old(out)@ + lit_name_key(),
{
    out.push(123);
    out.push(34);
    out.push(110);
    out.push(97);
    out.push(109);
    out.push(101);
    out.push(34);
    out.push(58);
    proof {
        assert(out@ =~= old(out)@ + lit_name_key());
    }
}

/// Append the literal key `vers_key` bytes to `out`.
fn push_vers_key(out: &mut Vec<u8>)
    ensures
        final(out)@ == old(out)@ + lit_vers_key(),
{
    out.push(44);
    out.push(34);
    out.push(118);
    out.push(101);
    out.push(114);
    out.push(115);
    out.push(34);
    out.push(58);
    proof {
        assert(out@ =~= old(out)@ + lit_vers_key());
    }
}

/// Append the literal key `deps_key` bytes to `out`.
fn push_deps_key(out: &mut Vec<u8>)
    ensures
        final(out)@ == old(out)@ + lit_deps_key(),
{
    out.push(44);
    out.push(34);
    out.push(100);
    out.push(101);
    out.push(112);
    out.push(115);
    out.push(34);
    out.push(58);
    out.push(91);
    proof {
        assert(out@ =~= old(out)@ + lit_deps_key());
    }
}

/// Append the literal key `req_key` bytes to `out`.
fn push_req_key(out: &mut Vec<u8>)
    ensures
        final(out)@ == old(out)@ + lit_req_key(),
{
    out.push(44);
    out.push(34);
    out.push(114);
    out.push(101);
    out.push(113);
    out.push(34);
    out.push(58);
    proof {
        assert(out@ =~= old(out)@ + lit_req_key());
    }
}

/// Append the literal key `cksum_key` bytes to `out`.
fn push_cksum_key(out: &mut Vec<u8>)
    ensures
        final(out)@ == old(out)@ + lit_cksum_key(),
{
    out.push(44);
    out.push(34);
    out.push(99);
    out.push(107);
    out.push(115);
    out.push(117);
    out.push(109);
    out.push(34);
    out.push(58);
    proof {
        assert(out@ =~= old(out)@ + lit_cksum_key());
    }
}

/// Append the literal key `features_key` bytes to `out`.
fn push_features_key(out: &mut Vec<u8>)
    ensures
        final(out)@ == old(out)@ + lit_features_key(),
{
    out.push(44);
    out.push(34);
    out.push(102);
    out.push(101);
    out.push(97);
    out.push(116);
    out.push(117);
    out.push(114);
    out.push(101);
    out.push(115);
    out.push(34);
    out.push(58);
    out.push(123);
    proof {
        assert(out@ =~= old(out)@ + lit_features_key());
    }
}

/// Append the literal key `yanked_key` bytes to `out`.
fn push_yanked_key(out: &mut Vec<u8>)
    ensures
        final(out)@ == old(out)@ + lit_yanked_key(),
{
    out.push(44);
    out.push(34);
    out.push(121);
    out.push(97);
    out.push(110);
    out.push(107);
    out.push(101);
    out.push(100);
    out.push(34);
    out.push(58);
    proof {
        assert(out@ =~= old(out)@ + lit_yanked_key());
    }
}

/// Append a quoted, escaped JSON string to `out`.
fn push_enc_str(out: &mut Vec<u8>, s: &Vec<u8>)
    ensures
        final(out)@ == old(out)@ + enc_str(s@),
{
    out.push(QUOTE);
    push_escaped(out, s);
    out.push(QUOTE);
    proof {
        assert(out@ =~= old(out)@ + enc_str(s@));
    }
}

/// Append one encoded dependency object to `out`.
fn push_dep(out: &mut Vec<u8>, d: &Dependency)
    ensures
        final(out)@ == old(out)@ + enc_dep(*d),
{
    push_name_key(out);
    push_enc_str(out, &d.name);
    push_req_key(out);
    push_enc_str(out, &d.req);
    out.push(RBRACE);
    proof {
        assert(out@ =~= old(out)@ + enc_dep(*d));
    }
}

/// Append the comma-separated dependency list to `out`.
fn push_deps(out: &mut Vec<u8>, ds: &Vec<Dependency>)
    ensures
        final(out)@ == old(out)@ + enc_deps(ds@),
{
    let mut k: usize = 0;
    proof {
        assert(ds@.take(0) =~= Seq::<Dependency>::empty());
        assert(out@ =~= old(out)@ + enc_deps(ds@.take(0)));
    }
    while k < ds.len()
        invariant
            k <= ds.len(),
            out@ == old(out)@ + enc_deps(ds@.take(k as int)),
        decreases ds.len() - k,
    {
        if k > 0 {
            out.push(COMMA);
        }
        push_dep(out, &ds[k]);
        proof {
            assert(ds@.take(k + 1).drop_last() =~= ds@.take(k as int));
            assert(ds@.take(k + 1).last() == ds@[k as int]);
            assert(out@ =~= old(out)@ + enc_deps(ds@.take(k + 1)));
        }
        k += 1;
    }
    proof {
        assert(ds@.take(ds@.len() as int) =~= ds@);
    }
}

/// Append the comma-separated string list to `out`.
fn push_strlist(out: &mut Vec<u8>, vs: &Vec<Vec<u8>>)
    ensures
        final(out)@ == old(out)@ + enc_strlist(vs@),
{
    let mut k: usize = 0;
    proof {
        assert(vs@.take(0) =~= Seq::<Vec<u8>>::empty());
        assert(out@ =~= old(out)@ + enc_strlist(vs@.take(0)));
    }
    while k < vs.len()
        invariant
            k <= vs.len(),
            out@ == old(out)@ + enc_strlist(vs@.take(k as int)),
        decreases vs.len() - k,
    {
        if k > 0 {
            out.push(COMMA);
        }
        push_enc_str(out, &vs[k]);
        proof {
            assert(vs@.take(k + 1).drop_last() =~= vs@.take(k as int));
            assert(vs@.take(k + 1).last() == vs@[k as int]);
            assert(out@ =~= old(out)@ + enc_strlist(vs@.take(k + 1)));
        }
        k += 1;
    }
    proof {
        assert(vs@.take(vs@.len() as int) =~= vs@);
    }
}

/// Append one encoded feature to `out`.
fn push_feature(out: &mut Vec<u8>, f: &FeatureEntry)
    ensures
        final(out)@ == old(out)@ + enc_feature(*f),
{
    push_enc_str(out, &f.name);
    out.push(COLON);
    out.push(LBRACKET);
    push_strlist(out, &f.enables);
    out.push(RBRACKET);
    proof {
        assert(out@ =~= old(out)@ + enc_feature(*f));
    }
}

/// Append the comma-separated feature map entries to `out`.
fn push_features(out: &mut Vec<u8>, fs: &Vec<FeatureEntry>)
    ensures
        final(out)@ == old(out)@ + enc_features(fs@),
{
    let mut k: usize = 0;
    proof {
        assert(fs@.take(0) =~= Seq::<FeatureEntry>::empty());
        assert(out@ =~= old(out)@ + enc_features(fs@.take(0)));
    }
    while k < fs.len()
        invariant
            k <= fs.len(),
            out@ == old(out)@ + enc_features(fs@.take(k as int)),
        decreases fs.len() - k,
    {
        if k > 0 {
            out.push(COMMA);
        }
        push_feature(out, &fs[k]);
        proof {
            assert(fs@.take(k + 1).drop_last() =~= fs@.take(k as int));
            assert(fs@.take(k + 1).last() == fs@[k as int]);
            assert(out@ =~= old(out)@ + enc_features(fs@.take(k + 1)));
        }
        k += 1;
    }
    proof {
        assert(fs@.take(fs@.len() as int) =~= fs@);
    }
}

/// Encode a version record as its canonical JSON line (without the
/// trailing newline).
pub fn encode_record(r: &VersionRecord) -> (out: Vec<u8>)
    ensures
        out@ == enc_record(*r),
{
    let mut out: Vec<u8> = Vec::new();
    push_name_key(&mut out);
    push_enc_str(&mut out, &r.name);
    push_vers_key(&mut out);
    push_enc_str(&mut out, &r.vers);
    push_deps_key(&mut out);
    push_deps(&mut out, &r.deps);
    out.push(RBRACKET);
    push_cksum_key(&mut out);
    push_enc_str(&mut out, &r.cksum);
    push_features_key(&mut out);
    push_features(&mut out, &r.features);
    out.push(RBRACE);
    push_yanked_key(&mut out);
    if r.yanked {
        out.push(116);
        out.push(114);
        out.push(117);
        out.push(101);
    } else {
        out.push(102);
        out.push(97);
        out.push(108);
        out.push(115);
        out.push(101);
    }
    out.push(RBRACE);
    proof {
        assert(out@ =~= enc_record(*r));
    }
    out
}


/// Parse a quoted string (opening quote at `i`).
pub open spec fn parse_jstring(s: Seq<u8>, i: int) -> Option<(Seq<u8>, int)> {
    if 0 <= i < s.len() && s[i] == QUOTE {
        parse_strbody(s, i + 1)
    } else {
        None
    }
}

pub proof fn lemma_parse_jstring_bounds(s: Seq<u8>, i: int)
    requires
        0 <= i <= s.len(),
        parse_jstring(s, i) is Some,
    ensures
        i + 1 < parse_jstring(s, i).unwrap().1 <= s.len(),
{
    lemma_parse_strbody_bounds(s, i + 1);
}

/// Parse one dependency object at `i`.
pub open spec fn parse_dep(s: Seq<u8>, i: int) -> Option<((Seq<u8>, Seq<u8>), int)> {
    if has_prefix_at(s, i, lit_name_key()) {
        match parse_jstring(s, i + 8) {
            Some((n, a)) => {
                if has_prefix_at(s, a, lit_req_key()) {
                    match parse_jstring(s, a + 7) {
                        Some((q, b)) => {
                            if b < s.len() && s[b] == RBRACE {
                                Some(((n, q), b + 1))
                            } else {
                                None
                            }
                        },
                        None => None,
                    }
                } else {
                    None
                }
            },
            None => None,
        }
    } else {
        None
    }
}

pub proof fn lemma_parse_dep_bounds(s: Seq<u8>, i: int)
    requires
        0 <= i <= s.len(),
        parse_dep(s, i) is Some,
    ensures
        i < parse_dep(s, i).unwrap().1 <= s.len(),
{
    lemma_parse_jstring_bounds(s, i + 8);
    let a = parse_jstring(s, i + 8).unwrap().1;
    lemma_parse_jstring_bounds(s, a + 7);
}

/// Parse the dependency objects after the first: a comma and an object,
/// repeatedly, stopping before anything else.
pub open spec fn parse_deps_rest(s: Seq<u8>, i: int) -> Option<(Seq<(Seq<u8>, Seq<u8>)>, int)>
    decreases s.len() - i when 0 <= i <= s.len()
    via parse_deps_rest_decreases
{
    if i < s.len() && s[i] == COMMA {
        match parse_dep(s, i + 1) {
            Some((d, j)) => match parse_deps_rest(s, j) {
                Some((ds, e)) => Some((seq![d] + ds, e)),
                None => None,
            },
            None => None,
        }
    } else {
        Some((Seq::empty(), i))
    }
}

#[via_fn]
proof fn parse_deps_rest_decreases(s: Seq<u8>, i: int) {
    if i < s.len() && s[i] == COMMA {
        if parse_dep(s, i + 1) is Some {
            lemma_parse_dep_bounds(s, i + 1);
        }
    }
}

/// Parse a bracketed dependency list whose `[` is already consumed,
/// consuming the closing `]`.
pub open spec fn parse_deps_block(s: Seq<u8>, i: int) -> Option<(Seq<(Seq<u8>, Seq<u8>)>, int)> {
    if i < s.len() && s[i] == RBRACKET {
        Some((Seq::empty(), i + 1))
    } else {
        match parse_dep(s, i) {
            Some((d, j)) => match parse_deps_rest(s, j) {
                Some((ds, e)) => {
                    if e < s.len() && s[e] == RBRACKET {
                        Some((seq![d] + ds, e + 1))
                    } else {
                        None
                    }
                },
                None => None,
            },
            None => None,
        }
    }
}

pub proof fn lemma_parse_deps_rest_bounds(s: Seq<u8>, i: int)
    requires
        0 <= i <= s.len(),
        parse_deps_rest(s, i) is Some,
    ensures
        i <= parse_deps_rest(s, i).unwrap().1 <= s.len(),
    decreases s.len() - i,
{
    if i < s.len() && s[i] == COMMA {
        if parse_dep(s, i + 1) is Some {
            lemma_parse_dep_bounds(s, i + 1);
            let j = parse_dep(s, i + 1).unwrap().1;
            if parse_deps_rest(s, j) is Some {
                lemma_parse_deps_rest_bounds(s, j);
            }
        }
    }
}

pub proof fn lemma_parse_deps_block_bounds(s: Seq<u8>, i: int)
    requires
        0 <= i <= s.len(),
        parse_deps_block(s, i) is Some,
    ensures
        i < parse_deps_block(s, i).unwrap().1 <= s.len(),
{
    if i < s.len() && s[i] == RBRACKET {
    } else {
        lemma_parse_dep_bounds(s, i);
        let j = parse_dep(s, i).unwrap().1;
        lemma_parse_deps_rest_bounds(s, j);
    }
}

/// Parse the strings after the first of a string list.
pub open spec fn parse_strlist_rest(s: Seq<u8>, i: int) -> Option<(Seq<Seq<u8>>, int)>
    decreases s.len() - i when 0 <= i <= s.len()
    via parse_strlist_rest_decreases
{
    if i < s.len() && s[i] == COMMA {
        match parse_jstring(s, i + 1) {
            Some((v, j)) => match parse_strlist_rest(s, j) {
                Some((vs, e)) => Some((seq![v] + vs, e)),
                None => None,
            },
            None => None,
        }
    } else {
        Some((Seq::empty(), i))
    }
}

#[via_fn]
proof fn parse_strlist_rest_decreases(s: Seq<u8>, i: int) {
    if i < s.len() && s[i] == COMMA {
        if parse_jstring(s, i + 1) is Some {
            lemma_parse_jstring_bounds(s, i + 1);
        }
    }
}

pub proof fn lemma_parse_strlist_rest_bounds(s: Seq<u8>, i: int)
    requires
        0 <= i <= s.len(),
        parse_strlist_rest(s, i) is Some,
    ensures
        i <= parse_strlist_rest(s, i).unwrap().1 <= s.len(),
    decreases s.len() - i,
{
    if i < s.len() && s[i] == COMMA {
        if parse_jstring(s, i + 1) is Some {
            lemma_parse_jstring_bounds(s, i + 1);
            let j = parse_jstring(s, i + 1).unwrap().1;
            if parse_strlist_rest(s, j) is Some {
                lemma_parse_strlist_rest_bounds(s, j);
            }
        }
    }
}

/// Parse a bracketed string list whose `[` is already consumed,
/// consuming the closing `]`.
pub open spec fn parse_strlist_block(s: Seq<u8>, i: int) -> Option<(Seq<Seq<u8>>, int)> {
    if i < s.len() && s[i] == RBRACKET {
        Some((Seq::empty(), i + 1))
    } else {
        match parse_jstring(s, i) {
            Some((v, j)) => match parse_strlist_rest(s, j) {
                Some((vs, e)) => {
                    if e < s.len() && s[e] == RBRACKET {
                        Some((seq![v] + vs, e + 1))
                    } else {
                        None
                    }
                },
                None => None,
            },
            None => None,
        }
    }
}

pub proof fn lemma_parse_strlist_block_bounds(s: Seq<u8>, i: int)
    requires
        0 <= i <= s.len(),
        parse_strlist_block(s, i) is Some,
    ensures
        i < parse_strlist_block(s, i).unwrap().1 <= s.len(),
{
    if i < s.len() && s[i] == RBRACKET {
    } else {
        lemma_parse_jstring_bounds(s, i);
        let j = parse_jstring(s, i).unwrap().1;
        lemma_parse_strlist_rest_bounds(s, j);
    }
}

/// Parse one feature entry: a name, a colon, and a bracketed list.
pub open spec fn parse_feature(s: Seq<u8>, i: int) -> Option<((Seq<u8>, Seq<Seq<u8>>), int)> {
    match parse_jstring(s, i) {
        Some((n, j)) => {
            if j + 1 < s.len() && s[j] == COLON && s[j + 1] == LBRACKET {
                match parse_strlist_block(s, j + 2) {
                    Some((vs, e)) => Some(((n, vs), e)),
                    None => None,
                }
            } else {
                None
            }
        },
        None => None,
    }
}

pub proof fn lemma_parse_feature_bounds(s: Seq<u8>, i: int)
    requires
        0 <= i <= s.len(),
        parse_feature(s, i) is Some,
    ensures
        i < parse_feature(s, i).unwrap().1 <= s.len(),
{
    lemma_parse_jstring_bounds(s, i);
    let j = parse_jstring(s, i).unwrap().1;
    lemma_parse_strlist_block_bounds(s, j + 2);
}

/// Parse the feature entries after the first.
pub open spec fn parse_features_rest(s: Seq<u8>, i: int) -> Option<
    (Seq<(Seq<u8>, Seq<Seq<u8>>)>, int),
>
    decreases s.len() - i when 0 <= i <= s.len()
    via parse_features_rest_decreases
{
    if i < s.len() && s[i] == COMMA {
        match parse_feature(s, i + 1) {
            Some((f, j)) => match parse_features_rest(s, j) {
                Some((fs, e)) => Some((seq![f] + fs, e)),
                None => None,
            },
            None => None,
        }
    } else {
        Some((Seq::empty(), i))
    }
}

#[via_fn]
proof fn parse_features_rest_decreases(s: Seq<u8>, i: int) {
    if i < s.len() && s[i] == COMMA {
        if parse_feature(s, i + 1) is Some {
            lemma_parse_feature_bounds(s, i + 1);
        }
    }
}

pub proof fn lemma_parse_features_rest_bounds(s: Seq<u8>, i: int)
    requires
        0 <= i <= s.len(),
        parse_features_rest(s, i) is Some,
    ensures
        i <= parse_features_rest(s, i).unwrap().1 <= s.len(),
    decreases s.len() - i,
{
    if i < s.len() && s[i] == COMMA {
        if parse_feature(s, i + 1) is Some {
            lemma_parse_feature_bounds(s, i + 1);
            let j = parse_feature(s, i + 1).unwrap().1;
            if parse_features_rest(s, j) is Some {
                lemma_parse_features_rest_bounds(s, j);
            }
        }
    }
}

/// Parse a braced feature map whose `{` is already consumed, consuming
/// the closing `}`.
pub open spec fn parse_features_block(s: Seq<u8>, i: int) -> Option<
    (Seq<(Seq<u8>, Seq<Seq<u8>>)>, int),
> {
    if i < s.len() && s[i] == RBRACE {
        Some((Seq::empty(), i + 1))
    } else {
        match parse_feature(s, i) {
            Some((f, j)) => match parse_features_rest(s, j) {
                Some((fs, e)) => {
                    if e < s.len() && s[e] == RBRACE {
                        Some((seq![f] + fs, e + 1))
                    } else {
                        None
                    }
                },
                None => None,
            },
            None => None,
        }
    }
}

pub proof fn lemma_parse_features_block_bounds(s: Seq<u8>, i: int)
    requires
        0 <= i <= s.len(),
        parse_features_block(s, i) is Some,
    ensures
        i < parse_features_block(s, i).unwrap().1 <= s.len(),
{
    if i < s.len() && s[i] == RBRACE {
    } else {
        lemma_parse_feature_bounds(s, i);
        let j = parse_feature(s, i).unwrap().1;
        lemma_parse_features_rest_bounds(s, j);
    }
}

/// The dependency list as name/requirement pairs of byte strings.
pub open spec fn deps_view(ds: Seq<Dependency>) -> Seq<(Seq<u8>, Seq<u8>)> {
    ds.map(|i: int, d: Dependency| (d.name@, d.req@))
}

/// The feature map as name/list pairs of byte strings.
pub open spec fn features_view(fs: Seq<FeatureEntry>) -> Seq<(Seq<u8>, Seq<Seq<u8>>)> {
    fs.map(|i: int, f: FeatureEntry| (f.name@, f.enables@.map(|j: int, v: Vec<u8>| v@)))
}


/// Build the `{"name":` literal.
pub fn vec_name_key() -> (r: Vec<u8>)
    ensures
        r@ == lit_name_key(),
{
    let mut v: Vec<u8> = Vec::new();
    push_name_key(&mut v);
    v
}

/// Build the `,"req":` literal.
pub fn vec_req_key() -> (r: Vec<u8>)
    ensures
        r@ == lit_req_key(),
{
    let mut v: Vec<u8> = Vec::new();
    push_req_key(&mut v);
    v
}

/// Parse a quoted string (opening quote at `i`).
pub fn exec_jstring(s: &Vec<u8>, i: usize) -> (r: Option<(Vec<u8>, usize)>)
    requires
        i <= s.len(),
    ensures
        match r {
            Some(p) => parse_jstring(s@, i as int) == Some((p.0@, p.1 as int)) && i < p.1
                <= s.len(),
            None => parse_jstring(s@, i as int) is None,
        },
{
    if i < s.len() && s[i] == QUOTE {
        match exec_strbody(s, i + 1) {
            Some((v, j)) => {
                proof {
                    lemma_parse_strbody_bounds(s@, i + 1);
                }
                Some((v, j))
            },
            None => None,
        }
    } else {
        None
    }
}

/// Parse one dependency object at `i`.
fn exec_dep(s: &Vec<u8>, i: usize) -> (r: Option<(Dependency, usize)>)
    requires
        i <= s.len(),
    ensures
        match r {
            Some(p) => parse_dep(s@, i as int) == Some(((p.0.name@, p.0.req@), p.1 as int)) && i
                < p.1 <= s.len(),
            None => parse_dep(s@, i as int) is None,
        },
{
    if !bytes_at(s, i, &vec_name_key()) {
        return None;
    }
    match exec_jstring(s, i + 8) {
        Some((n, a)) => {
            if !bytes_at(s, a, &vec_req_key()) {
                return None;
            }
            match exec_jstring(s, a + 7) {
                Some((q, b)) => {
                    if b < s.len() && s[b] == RBRACE {
                        Some((Dependency { name: n, req: q }, b + 1))
                    } else {
                        None
                    }
                },
                None => None,
            }
        },
        None => None,
    }
}

/// Parse the dependency objects after the first.
fn exec_deps_rest(s: &Vec<u8>, i: usize) -> (r: Option<(Vec<Dependency>, usize)>)
    requires
        i <= s.len(),
    ensures
        match r {
            Some(p) => parse_deps_rest(s@, i as int) == Some((deps_view(p.0@), p.1 as int))
                && p.1 <= s.len(),
            None => parse_deps_rest(s@, i as int) is None,
        },
    decreases s.len() - i,
{
    if i < s.len() && s[i] == COMMA {
        match exec_dep(s, i + 1) {
            Some((d, j)) => match exec_deps_rest(s, j) {
                Some((mut ds, e)) => {
                    let ghost dv = (d.name@, d.req@);
                    let ghost dsold = ds@;
                    ds.insert(0, d);
                    proof {
                        assert(deps_view(ds@) =~= seq![dv] + deps_view(dsold));
                    }
                    Some((ds, e))
                },
                None => None,
            },
            None => None,
        }
    } else {
        let empty: Vec<Dependency> = Vec::new();
        proof {
            assert(deps_view(empty@) =~= Seq::<(Seq<u8>, Seq<u8>)>::empty());
        }
        Some((empty, i))
    }
}

/// Parse a bracketed dependency list whose `[` is already consumed.
pub fn exec_deps_block(s: &Vec<u8>, i: usize) -> (r: Option<(Vec<Dependency>, usize)>)
    requires
        i <= s.len(),
    ensures
        match r {
            Some(p) => parse_deps_block(s@, i as int) == Some((deps_view(p.0@), p.1 as int))
                && p.1 <= s.len(),
            None => parse_deps_block(s@, i as int) is None,
        },
{
    if i < s.len() && s[i] == RBRACKET {
        let empty: Vec<Dependency> = Vec::new();
        proof {
            assert(deps_view(empty@) =~= Seq::<(Seq<u8>, Seq<u8>)>::empty());
        }
        return Some((empty, i + 1));
    }
    match exec_dep(s, i) {
        Some((d, j)) => match exec_deps_rest(s, j) {
            Some((mut ds, e)) => {
                if e < s.len() && s[e] == RBRACKET {
                    let ghost dv = (d.name@, d.req@);
                    let ghost dsold = ds@;
                    ds.insert(0, d);
                    proof {
                        assert(deps_view(ds@) =~= seq![dv] + deps_view(dsold));
                    }
                    Some((ds, e + 1))
                } else {
                    None
                }
            },
            None => None,
        },
        None => None,
    }
}

/// Parse the strings after the first of a string list.
fn exec_strlist_rest(s: &Vec<u8>, i: usize) -> (r: Option<(Vec<Vec<u8>>, usize)>)
    requires
        i <= s.len(),
    ensures
        match r {
            Some(p) => parse_strlist_rest(s@, i as int) == Some(
                (p.0@.map(|n: int, v: Vec<u8>| v@), p.1 as int),
            ) && p.1 <= s.len(),
            None => parse_strlist_rest(s@, i as int) is None,
        },
    decreases s.len() - i,
{
    if i < s.len() && s[i] == COMMA {
        match exec_jstring(s, i + 1) {
            Some((v, j)) => match exec_strlist_rest(s, j) {
                Some((mut vs, e)) => {
                    let ghost vv = v@;
                    let ghost vsold = vs@;
                    vs.insert(0, v);
                    proof {
                        assert(vs@.map(|n: int, v2: Vec<u8>| v2@) =~= seq![vv] + vsold.map(
                            |n: int, v2: Vec<u8>| v2@,
                        ));
                    }
                    Some((vs, e))
                },
                None => None,
            },
            None => None,
        }
    } else {
        let empty: Vec<Vec<u8>> = Vec::new();
        proof {
            assert(empty@.map(|n: int, v2: Vec<u8>| v2@) =~= Seq::<Seq<u8>>::empty());
        }
        Some((empty, i))
    }
}

/// Parse a bracketed string list whose `[` is already consumed.
fn exec_strlist_block(s: &Vec<u8>, i: usize) -> (r: Option<(Vec<Vec<u8>>, usize)>)
    requires
        i <= s.len(),
    ensures
        match r {
            Some(p) => parse_strlist_block(s@, i as int) == Some(
                (p.0@.map(|n: int, v: Vec<u8>| v@), p.1 as int),
            ) && p.1 <= s.len(),
            None => parse_strlist_block(s@, i as int) is None,
        },
{
    if i < s.len() && s[i] == RBRACKET {
        let empty: Vec<Vec<u8>> = Vec::new();
        proof {
            assert(empty@.map(|n: int, v2: Vec<u8>| v2@) =~= Seq::<Seq<u8>>::empty());
        }
        return Some((empty, i + 1));
    }
    match exec_jstring(s, i) {
        Some((v, j)) => match exec_strlist_rest(s, j) {
            Some((mut vs, e)) => {
                if e < s.len() && s[e] == RBRACKET {
                    let ghost vv = v@;
                    let ghost vsold = vs@;
                    vs.insert(0, v);
                    proof {
                        assert(vs@.map(|n: int, v2: Vec<u8>| v2@) =~= seq![vv] + vsold.map(
                            |n: int, v2: Vec<u8>| v2@,
                        ));
                    }
                    Some((vs, e + 1))
                } else {
                    None
                }
            },
            None => None,
        },
        None => None,
    }
}

/// The view of one feature entry.
pub open spec fn feature_view(f: FeatureEntry) -> (Seq<u8>, Seq<Seq<u8>>) {
    (f.name@, f.enables@.map(|j: int, v: Vec<u8>| v@))
}

/// Parse one feature entry at `i`.
fn exec_feature(s: &Vec<u8>, i: usize) -> (r: Option<(FeatureEntry, usize)>)
    requires
        i <= s.len(),
    ensures
        match r {
            Some(p) => parse_feature(s@, i as int) == Some((feature_view(p.0), p.1 as int)) && i
                < p.1 <= s.len(),
            None => parse_feature(s@, i as int) is None,
        },
{
    match exec_jstring(s, i) {
        Some((n, j)) => {
            if j < s.len() && j + 1 < s.len() && s[j] == COLON && s[j + 1] == LBRACKET {
                match exec_strlist_block(s, j + 2) {
                    Some((vs, e)) => {
                        proof {
                            lemma_parse_strlist_block_bounds(s@, j + 2);
                        }
                        Some((FeatureEntry { name: n, enables: vs }, e))
                    },
                    None => None,
                }
            } else {
                None
            }
        },
        None => None,
    }
}

/// Parse the feature entries after the first.
fn exec_features_rest(s: &Vec<u8>, i: usize) -> (r: Option<(Vec<FeatureEntry>, usize)>)
    requires
        i <= s.len(),
    ensures
        match r {
            Some(p) => parse_features_rest(s@, i as int) == Some(
                (features_view(p.0@), p.1 as int),
            ) && p.1 <= s.len(),
            None => parse_features_rest(s@, i as int) is None,
        },
    decreases s.len() - i,
{
    if i < s.len() && s[i] == COMMA {
        match exec_feature(s, i + 1) {
            Some((f, j)) => match exec_features_rest(s, j) {
                Some((mut fs, e)) => {
                    let ghost fv = feature_view(f);
                    let ghost fsold = fs@;
                    fs.insert(0, f);
                    proof {
                        assert(features_view(fs@) =~= seq![fv] + features_view(fsold));
                    }
                    Some((fs, e))
                },
                None => None,
            },
            None => None,
        }
    } else {
        let empty: Vec<FeatureEntry> = Vec::new();
        proof {
            assert(features_view(empty@) =~= Seq::<(Seq<u8>, Seq<Seq<u8>>)>::empty());
        }
        Some((empty, i))
    }
}

/// Parse a braced feature map whose `{` is already consumed.
pub fn exec_features_block(s: &Vec<u8>, i: usize) -> (r: Option<(Vec<FeatureEntry>, usize)>)
    requires
        i <= s.len(),
    ensures
        match r {
            Some(p) => parse_features_block(s@, i as int) == Some(
                (features_view(p.0@), p.1 as int),
            ) && p.1 <= s.len(),
            None => parse_features_block(s@, i as int) is None,
        },
{
    if i < s.len() && s[i] == RBRACE {
        let empty: Vec<FeatureEntry> = Vec::new();
        proof {
            assert(features_view(empty@) =~= Seq::<(Seq<u8>, Seq<Seq<u8>>)>::empty());
        }
        return Some((empty, i + 1));
    }
    match exec_feature(s, i) {
        Some((f, j)) => match exec_features_rest(s, j) {
            Some((mut fs, e)) => {
                if e < s.len() && s[e] == RBRACE {
                    let ghost fv = feature_view(f);
                    let ghost fsold = fs@;
                    fs.insert(0, f);
                    proof {
                        assert(features_view(fs@) =~= seq![fv] + features_view(fsold));
                    }
                    Some((fs, e + 1))
                } else {
                    None
                }
            },
            None => None,
        },
        None => None,
    }
}


/// Parse a whole record line into its raw parts: name, version string,
/// dependencies, checksum, features, yanked flag. The line must be
/// canonical: exact field order, no whitespace, nothing after the
/// closing brace.
pub open spec fn parse_record_parts(s: Seq<u8>) -> Option<
    (Seq<u8>, Seq<u8>, Seq<(Seq<u8>, Seq<u8>)>, Seq<u8>, Seq<(Seq<u8>, Seq<Seq<u8>>)>, bool),
> {
    if has_prefix_at(s, 0, lit_name_key()) {
        match parse_jstring(s, 8) {
            Some((name, a)) => {
                if has_prefix_at(s, a, lit_vers_key()) {
                    match parse_jstring(s, a + 8) {
                        Some((vers, b)) => {
                            if has_prefix_at(s, b, lit_deps_key()) {
                                match parse_deps_block(s, b + 9) {
                                    Some((deps, c)) => {
                                        if has_prefix_at(s, c, lit_cksum_key()) {
                                            match parse_jstring(s, c + 9) {
                                                Some((ck, d)) => {
                                                    if has_prefix_at(s, d, lit_features_key()) {
                                                        match parse_features_block(s, d + 13) {
                                                            Some((fs, e)) => {
                                                                if has_prefix_at(s, e, lit_yanked_key()) {
                                                                    if has_prefix_at(s, e + 10, lit_true()) && s.len()
                                                                        == e + 15 && s[e + 14] == RBRACE {
                                                                        Some((name, vers, deps, ck, fs, true))
                                                                    } else if has_prefix_at(s, e + 10, lit_false())
                                                                        && s.len() == e + 16 && s[e + 15] == RBRACE {
                                                                        Some((name, vers, deps, ck, fs, false))
                                                                    } else {
                                                                        None
                                                                    }
                                                                } else {
                                                                    None
                                                                }
                                                            },
                                                            None => None,
                                                        }
                                                    } else {
                                                        None
                                                    }
                                                },
                                                None => None,
                                            }
                                        } else {
                                            None
                                        }
                                    },
                                    None => None,
                                }
                            } else {
                                None
                            }
                        },
                        None => None,
                    }
                } else {
                    None
                }
            },
            None => None,
        }
    } else {
        None
    }
}

/// Whether raw record parts form a well-formed record: a valid name, a
/// version string that parses, and a 64-digit lowercase hex checksum.
pub open spec fn parts_wf(
    parts: (Seq<u8>, Seq<u8>, Seq<(Seq<u8>, Seq<u8>)>, Seq<u8>, Seq<(Seq<u8>, Seq<Seq<u8>>)>, bool),
) -> bool {
    valid_name(parts.0) && spec_parse_version(parts.1) is Some && parts.3.len() == 64 && (forall|
        i: int,
    | 0 <= i < parts.3.len() ==> is_hex_lower_digit(#[trigger] parts.3[i]))
}

/// Build the `,"vers":` literal.
pub fn vec_vers_key() -> (r: Vec<u8>)
    ensures
        r@ == lit_vers_key(),
{
    let mut v: Vec<u8> = Vec::new();
    push_vers_key(&mut v);
    v
}

/// Build the `,"deps":[` literal.
pub fn vec_deps_key() -> (r: Vec<u8>)
    ensures
        r@ == lit_deps_key(),
{
    let mut v: Vec<u8> = Vec::new();
    push_deps_key(&mut v);
    v
}

/// Build the `,"cksum":` literal.
pub fn vec_cksum_key() -> (r: Vec<u8>)
    ensures
        r@ == lit_cksum_key(),
{
    let mut v: Vec<u8> = Vec::new();
    push_cksum_key(&mut v);
    v
}

/// Build the `,"features":{` literal.
pub fn vec_features_key() -> (r: Vec<u8>)
    ensures
        r@ == lit_features_key(),
{
    let mut v: Vec<u8> = Vec::new();
    push_features_key(&mut v);
    v
}

/// Build the `,"yanked":` literal.
pub fn vec_yanked_key() -> (r: Vec<u8>)
    ensures
        r@ == lit_yanked_key(),
{
    let mut v: Vec<u8> = Vec::new();
    push_yanked_key(&mut v);
    v
}

/// Build the `true` literal.
fn vec_true() -> (r: Vec<u8>)
    ensures
        r@ == lit_true(),
{
    let mut v: Vec<u8> = Vec::new();
    v.push(116);
    v.push(114);
    v.push(117);
    v.push(101);
    proof {
        assert(v@ =~= lit_true());
    }
    v
}

/// Build the `false` literal.
fn vec_false() -> (r: Vec<u8>)
    ensures
        r@ == lit_false(),
{
    let mut v: Vec<u8> = Vec::new();
    v.push(102);
    v.push(97);
    v.push(108);
    v.push(115);
    v.push(101);
    proof {
        assert(v@ =~= lit_false());
    }
    v
}

/// Decode one canonical record line. The result, when there is one, is a
/// well-formed record carrying exactly the parts of the line; a line
/// that does not parse, or whose parts do not form a well-formed record,
/// yields nothing.
pub fn decode_record(s: &Vec<u8>) -> (r: Option<VersionRecord>)
    ensures
        match parse_record_parts(s@) {
            Some(parts) => {
                if parts_wf(parts) {
                    &&& r is Some
                    &&& r.unwrap().wf()
                    &&& r.unwrap().name@ == parts.0
                    &&& r.unwrap().vers@ == parts.1
                    &&& deps_view(r.unwrap().deps@) == parts.2
                    &&& r.unwrap().cksum@ == parts.3
                    &&& features_view(r.unwrap().features@) == parts.4
                    &&& r.unwrap().yanked == parts.5
                    &&& Some(r.unwrap().version) == spec_parse_version(parts.1)
                } else {
                    r is None
                }
            },
            None => r is None,
        },
{
    if !bytes_at(s, 0, &vec_name_key()) {
        return None;
    }
    let (name, a) = match exec_jstring(s, 8) {
        Some(p) => p,
        None => {
            return None;
        },
    };
    if !bytes_at(s, a, &vec_vers_key()) {
        return None;
    }
    let (vers, b) = match exec_jstring(s, a + 8) {
        Some(p) => p,
        None => {
            return None;
        },
    };
    if !bytes_at(s, b, &vec_deps_key()) {
        return None;
    }
    let (deps, c) = match exec_deps_block(s, b + 9) {
        Some(p) => p,
        None => {
            return None;
        },
    };
    if !bytes_at(s, c, &vec_cksum_key()) {
        return None;
    }
    let (cksum, d) = match exec_jstring(s, c + 9) {
        Some(p) => p,
        None => {
            return None;
        },
    };
    if !bytes_at(s, d, &vec_features_key()) {
        return None;
    }
    let (features, e) = match exec_features_block(s, d + 13) {
        Some(p) => p,
        None => {
            return None;
        },
    };
    if !bytes_at(s, e, &vec_yanked_key()) {
        return None;
    }
    let yanked: bool;
    if s.len() >= 15 && e == s.len() - 15 && bytes_at(s, e + 10, &vec_true()) && s[e + 14]
        == RBRACE {
        yanked = true;
    } else if s.len() >= 16 && e == s.len() - 16 && bytes_at(s, e + 10, &vec_false()) && s[e + 15]
        == RBRACE {
        yanked = false;
    } else {
        return None;
    }
    if !valid_name_check(&name) {
        return None;
    }
    if !hex64_check(&cksum) {
        return None;
    }
    let version = match parse_version(&vers) {
        Some(v) => v,
        None => {
            return None;
        },
    };
    Some(VersionRecord { name, vers, version, deps, cksum, features, yanked })
}


/// The dependency list continuation in encoding order: a comma and an
/// object for each further dependency.
pub open spec fn enc_deps_tail(ds: Seq<Dependency>) -> Seq<u8>
    decreases ds.len(),
{
    if ds.len() == 0 {
        Seq::empty()
    } else {
        seq![COMMA] + enc_dep(ds[0]) + enc_deps_tail(ds.skip(1))
    }
}

proof fn lemma_enc_deps_tail_snoc(ds: Seq<Dependency>, d: Dependency)
    ensures
        enc_deps_tail(ds.push(d)) == enc_deps_tail(ds) + seq![COMMA] + enc_dep(d),
    decreases ds.len(),
{
    if ds.len() == 0 {
        assert(ds.push(d)[0] == d);
        assert(ds.push(d).skip(1) =~= Seq::<Dependency>::empty());
        assert(enc_deps_tail(Seq::<Dependency>::empty()) =~= Seq::<u8>::empty());
        assert(enc_deps_tail(ds.push(d)) =~= enc_deps_tail(ds) + seq![COMMA] + enc_dep(d));
    } else {
        assert(ds.push(d).skip(1) =~= ds.skip(1).push(d));
        lemma_enc_deps_tail_snoc(ds.skip(1), d);
        assert(enc_deps_tail(ds.push(d)) =~= enc_deps_tail(ds) + seq![COMMA] + enc_dep(d));
    }
}

/// The snoc-recursive encoding equals its head form: the first object,
/// then the continuation.
pub proof fn lemma_enc_deps_head(ds: Seq<Dependency>)
    ensures
        ds.len() > 0 ==> enc_deps(ds) == enc_dep(ds[0]) + enc_deps_tail(ds.skip(1)),
    decreases ds.len(),
{
    if ds.len() == 1 {
        assert(ds.skip(1) =~= Seq::<Dependency>::empty());
        assert(enc_deps(ds) =~= enc_dep(ds[0]) + enc_deps_tail(ds.skip(1)));
    } else if ds.len() > 1 {
        let dl = ds.drop_last();
        lemma_enc_deps_head(dl);
        lemma_enc_deps_tail_snoc(dl.skip(1), ds.last());
        assert(ds.skip(1) =~= dl.skip(1).push(ds.last()));
        assert(dl[0] == ds[0]);
        assert(enc_deps(ds) =~= enc_dep(ds[0]) + enc_deps_tail(ds.skip(1)));
    }
}

/// The string list continuation in encoding order.
pub open spec fn enc_strlist_tail(vs: Seq<Vec<u8>>) -> Seq<u8>
    decreases vs.len(),
{
    if vs.len() == 0 {
        Seq::empty()
    } else {
        seq![COMMA] + enc_str(vs[0]@) + enc_strlist_tail(vs.skip(1))
    }
}

proof fn lemma_enc_strlist_tail_snoc(vs: Seq<Vec<u8>>, v: Vec<u8>)
    ensures
        enc_strlist_tail(vs.push(v)) == enc_strlist_tail(vs) + seq![COMMA] + enc_str(v@),
    decreases vs.len(),
{
    if vs.len() == 0 {
        assert(vs.push(v)[0] == v);
        assert(vs.push(v).skip(1) =~= Seq::<Vec<u8>>::empty());
        assert(enc_strlist_tail(Seq::<Vec<u8>>::empty()) =~= Seq::<u8>::empty());
        assert(enc_strlist_tail(vs.push(v)) =~= enc_strlist_tail(vs) + seq![COMMA] + enc_str(v@));
    } else {
        assert(vs.push(v).skip(1) =~= vs.skip(1).push(v));
        lemma_enc_strlist_tail_snoc(vs.skip(1), v);
        assert(enc_strlist_tail(vs.push(v)) =~= enc_strlist_tail(vs) + seq![COMMA] + enc_str(v@));
    }
}

pub proof fn lemma_enc_strlist_head(vs: Seq<Vec<u8>>)
    ensures
        vs.len() > 0 ==> enc_strlist(vs) == enc_str(vs[0]@) + enc_strlist_tail(vs.skip(1)),
    decreases vs.len(),
{
    if vs.len() == 1 {
        assert(vs.skip(1) =~= Seq::<Vec<u8>>::empty());
        assert(enc_strlist(vs) =~= enc_str(vs[0]@) + enc_strlist_tail(vs.skip(1)));
    } else if vs.len() > 1 {
        let vl = vs.drop_last();
        lemma_enc_strlist_head(vl);
        lemma_enc_strlist_tail_snoc(vl.skip(1), vs.last());
        assert(vs.skip(1) =~= vl.skip(1).push(vs.last()));
        assert(vl[0] == vs[0]);
        assert(enc_strlist(vs) =~= enc_str(vs[0]@) + enc_strlist_tail(vs.skip(1)));
    }
}

/// The feature map continuation in encoding order.
pub open spec fn enc_features_tail(fs: Seq<FeatureEntry>) -> Seq<u8>
    decreases fs.len(),
{
    if fs.len() == 0 {
        Seq::empty()
    } else {
        seq![COMMA] + enc_feature(fs[0]) + enc_features_tail(fs.skip(1))
    }
}

proof fn lemma_enc_features_tail_snoc(fs: Seq<FeatureEntry>, f: FeatureEntry)
    ensures
        enc_features_tail(fs.push(f)) == enc_features_tail(fs) + seq![COMMA] + enc_feature(f),
    decreases fs.len(),
{
    if fs.len() == 0 {
        assert(fs.push(f)[0] == f);
        assert(fs.push(f).skip(1) =~= Seq::<FeatureEntry>::empty());
        assert(enc_features_tail(Seq::<FeatureEntry>::empty()) =~= Seq::<u8>::empty());
        assert(enc_features_tail(fs.push(f)) =~= enc_features_tail(fs) + seq![COMMA]
            + enc_feature(f));
    } else {
        assert(fs.push(f).skip(1) =~= fs.skip(1).push(f));
        lemma_enc_features_tail_snoc(fs.skip(1), f);
        assert(enc_features_tail(fs.push(f)) =~= enc_features_tail(fs) + seq![COMMA]
            + enc_feature(f));
    }
}

pub proof fn lemma_enc_features_head(fs: Seq<FeatureEntry>)
    ensures
        fs.len() > 0 ==> enc_features(fs) == enc_feature(fs[0]) + enc_features_tail(fs.skip(1)),
    decreases fs.len(),
{
    if fs.len() == 1 {
        assert(fs.skip(1) =~= Seq::<FeatureEntry>::empty());
        assert(enc_features(fs) =~= enc_feature(fs[0]) + enc_features_tail(fs.skip(1)));
    } else if fs.len() > 1 {
        let fl = fs.drop_last();
        lemma_enc_features_head(fl);
        lemma_enc_features_tail_snoc(fl.skip(1), fs.last());
        assert(fs.skip(1) =~= fl.skip(1).push(fs.last()));
        assert(fl[0] == fs[0]);
        assert(enc_features(fs) =~= enc_feature(fs[0]) + enc_features_tail(fs.skip(1)));
    }
}


/// A string list as plain byte strings.
pub open spec fn strlist_view(vs: Seq<Vec<u8>>) -> Seq<Seq<u8>> {
    vs.map(|i: int, v: Vec<u8>| v@)
}

/// Parsing inverts the string encoding.
pub proof fn lemma_parse_jstring_of_enc(s: Seq<u8>, i: int, d: Seq<u8>)
    requires
        0 <= i,
        has_prefix_at(s, i, enc_str(d)),
    ensures
        parse_jstring(s, i) == Some((d, i + enc_str(d).len())),
{
    assert(enc_str(d) =~= seq![QUOTE] + escaped(d).push(QUOTE));
    lemma_concat_prefix_at(s, i, seq![QUOTE], escaped(d).push(QUOTE));
    lemma_prefix_index(s, i, seq![QUOTE], 0);
    assert(s[i] == QUOTE);
    lemma_parse_strbody_of_escaped(s, i + 1, d);
}

/// Parsing inverts the dependency-object encoding.
pub proof fn lemma_parse_dep_of_enc(s: Seq<u8>, i: int, d: Dependency)
    requires
        0 <= i,
        has_prefix_at(s, i, enc_dep(d)),
    ensures
        parse_dep(s, i) == Some(((d.name@, d.req@), i + enc_dep(d).len())),
{
    assert(enc_dep(d) =~= lit_name_key() + (enc_str(d.name@) + (lit_req_key() + (enc_str(d.req@)
        + seq![RBRACE]))));
    lemma_concat_prefix_at(s, i, lit_name_key(), enc_str(d.name@) + (lit_req_key() + (enc_str(
        d.req@,
    ) + seq![RBRACE])));
    lemma_concat_prefix_at(s, i + 8, enc_str(d.name@), lit_req_key() + (enc_str(d.req@) + seq![
        RBRACE,
    ]));
    let a = i + 8 + enc_str(d.name@).len() as int;
    lemma_concat_prefix_at(s, a, lit_req_key(), enc_str(d.req@) + seq![RBRACE]);
    lemma_concat_prefix_at(s, a + 7, enc_str(d.req@), seq![RBRACE]);
    let b = a + 7 + enc_str(d.req@).len() as int;
    lemma_parse_jstring_of_enc(s, i + 8, d.name@);
    lemma_parse_jstring_of_enc(s, a + 7, d.req@);
    lemma_prefix_index(s, b, seq![RBRACE], 0);
    assert(s[b] == RBRACE);
    assert(parse_dep(s, i) == Some(((d.name@, d.req@), b + 1)));
}

/// Parsing inverts the dependency-list continuation, stopping at the
/// closing bracket that follows it.
pub proof fn lemma_parse_deps_rest_of_enc(s: Seq<u8>, i: int, ds: Seq<Dependency>)
    requires
        0 <= i,
        has_prefix_at(s, i, enc_deps_tail(ds).push(RBRACKET)),
    ensures
        parse_deps_rest(s, i) == Some((deps_view(ds), i + enc_deps_tail(ds).len())),
    decreases ds.len(),
{
    if ds.len() == 0 {
        assert(enc_deps_tail(ds) =~= Seq::<u8>::empty());
        assert(enc_deps_tail(ds).push(RBRACKET) =~= seq![RBRACKET]);
        lemma_prefix_index(s, i, enc_deps_tail(ds).push(RBRACKET), 0);
        assert(s[i] == RBRACKET);
        assert(deps_view(ds) =~= Seq::<(Seq<u8>, Seq<u8>)>::empty());
    } else {
        let d0 = ds[0];
        let rest = enc_deps_tail(ds.skip(1));
        assert(enc_deps_tail(ds).push(RBRACKET) =~= seq![COMMA] + (enc_dep(d0) + rest.push(
            RBRACKET,
        )));
        lemma_concat_prefix_at(s, i, seq![COMMA], enc_dep(d0) + rest.push(RBRACKET));
        lemma_concat_prefix_at(s, i + 1, enc_dep(d0), rest.push(RBRACKET));
        lemma_prefix_index(s, i, seq![COMMA], 0);
        assert(s[i] == COMMA);
        lemma_parse_dep_of_enc(s, i + 1, d0);
        let j = i + 1 + enc_dep(d0).len() as int;
        lemma_parse_deps_rest_of_enc(s, j, ds.skip(1));
        assert(seq![(d0.name@, d0.req@)] + deps_view(ds.skip(1)) =~= deps_view(ds));
        assert(i + enc_deps_tail(ds).len() == j + rest.len());
    }
}

/// Parsing inverts the bracketed dependency list.
pub proof fn lemma_parse_deps_block_of_enc(s: Seq<u8>, i: int, ds: Seq<Dependency>)
    requires
        0 <= i,
        has_prefix_at(s, i, enc_deps(ds).push(RBRACKET)),
    ensures
        parse_deps_block(s, i) == Some((deps_view(ds), i + enc_deps(ds).len() + 1)),
{
    if ds.len() == 0 {
        assert(enc_deps(ds) =~= Seq::<u8>::empty());
        assert(enc_deps(ds).push(RBRACKET) =~= seq![RBRACKET]);
        lemma_prefix_index(s, i, enc_deps(ds).push(RBRACKET), 0);
        assert(s[i] == RBRACKET);
        assert(deps_view(ds) =~= Seq::<(Seq<u8>, Seq<u8>)>::empty());
    } else {
        lemma_enc_deps_head(ds);
        let d0 = ds[0];
        let rest = enc_deps_tail(ds.skip(1));
        assert(enc_deps(ds).push(RBRACKET) =~= enc_dep(d0) + rest.push(RBRACKET));
        lemma_concat_prefix_at(s, i, enc_dep(d0), rest.push(RBRACKET));
        lemma_prefix_index(s, i, enc_dep(d0), 0);
        assert(s[i] == 123);
        lemma_parse_dep_of_enc(s, i, d0);
        let j = i + enc_dep(d0).len() as int;
        lemma_parse_deps_rest_of_enc(s, j, ds.skip(1));
        let e = j + rest.len() as int;
        assert(rest.push(RBRACKET) =~= rest + seq![RBRACKET]);
        lemma_concat_prefix_at(s, j, rest, seq![RBRACKET]);
        lemma_prefix_index(s, e, seq![RBRACKET], 0);
        assert(s[e] == RBRACKET);
        assert(seq![(d0.name@, d0.req@)] + deps_view(ds.skip(1)) =~= deps_view(ds));
    }
}

/// Parsing inverts the string-list continuation.
pub proof fn lemma_parse_strlist_rest_of_enc(s: Seq<u8>, i: int, vs: Seq<Vec<u8>>)
    requires
        0 <= i,
        has_prefix_at(s, i, enc_strlist_tail(vs).push(RBRACKET)),
    ensures
        parse_strlist_rest(s, i) == Some((strlist_view(vs), i + enc_strlist_tail(vs).len())),
    decreases vs.len(),
{
    if vs.len() == 0 {
        assert(enc_strlist_tail(vs) =~= Seq::<u8>::empty());
        assert(enc_strlist_tail(vs).push(RBRACKET) =~= seq![RBRACKET]);
        lemma_prefix_index(s, i, enc_strlist_tail(vs).push(RBRACKET), 0);
        assert(s[i] == RBRACKET);
        assert(strlist_view(vs) =~= Seq::<Seq<u8>>::empty());
    } else {
        let v0 = vs[0];
        let rest = enc_strlist_tail(vs.skip(1));
        assert(enc_strlist_tail(vs).push(RBRACKET) =~= seq![COMMA] + (enc_str(v0@) + rest.push(
            RBRACKET,
        )));
        lemma_concat_prefix_at(s, i, seq![COMMA], enc_str(v0@) + rest.push(RBRACKET));
        lemma_concat_prefix_at(s, i + 1, enc_str(v0@), rest.push(RBRACKET));
        lemma_prefix_index(s, i, seq![COMMA], 0);
        assert(s[i] == COMMA);
        lemma_parse_jstring_of_enc(s, i + 1, v0@);
        let j = i + 1 + enc_str(v0@).len() as int;
        lemma_parse_strlist_rest_of_enc(s, j, vs.skip(1));
        assert(seq![v0@] + strlist_view(vs.skip(1)) =~= strlist_view(vs));
        assert(i + enc_strlist_tail(vs).len() == j + rest.len());
    }
}

/// Parsing inverts the bracketed string list.
pub proof fn lemma_parse_strlist_block_of_enc(s: Seq<u8>, i: int, vs: Seq<Vec<u8>>)
    requires
        0 <= i,
        has_prefix_at(s, i, enc_strlist(vs).push(RBRACKET)),
    ensures
        parse_strlist_block(s, i) == Some((strlist_view(vs), i + enc_strlist(vs).len() + 1)),
{
    if vs.len() == 0 {
        assert(enc_strlist(vs) =~= Seq::<u8>::empty());
        assert(enc_strlist(vs).push(RBRACKET) =~= seq![RBRACKET]);
        lemma_prefix_index(s, i, enc_strlist(vs).push(RBRACKET), 0);
        assert(s[i] == RBRACKET);
        assert(strlist_view(vs) =~= Seq::<Seq<u8>>::empty());
    } else {
        lemma_enc_strlist_head(vs);
        let v0 = vs[0];
        let rest = enc_strlist_tail(vs.skip(1));
        assert(enc_strlist(vs).push(RBRACKET) =~= enc_str(v0@) + rest.push(RBRACKET));
        lemma_concat_prefix_at(s, i, enc_str(v0@), rest.push(RBRACKET));
        lemma_prefix_index(s, i, enc_str(v0@), 0);
        assert(s[i] == QUOTE);
        lemma_parse_jstring_of_enc(s, i, v0@);
        let j = i + enc_str(v0@).len() as int;
        lemma_parse_strlist_rest_of_enc(s, j, vs.skip(1));
        let e = j + rest.len() as int;
        assert(rest.push(RBRACKET) =~= rest + seq![RBRACKET]);
        lemma_concat_prefix_at(s, j, rest, seq![RBRACKET]);
        lemma_prefix_index(s, e, seq![RBRACKET], 0);
        assert(s[e] == RBRACKET);
        assert(seq![v0@] + strlist_view(vs.skip(1)) =~= strlist_view(vs));
    }
}

/// Parsing inverts the feature encoding.
pub proof fn lemma_parse_feature_of_enc(s: Seq<u8>, i: int, f: FeatureEntry)
    requires
        0 <= i,
        has_prefix_at(s, i, enc_feature(f)),
    ensures
        parse_feature(s, i) == Some((feature_view(f), i + enc_feature(f).len())),
{
    assert(enc_feature(f) =~= enc_str(f.name@) + (seq![COLON, LBRACKET] + enc_strlist(
        f.enables@,
    ).push(RBRACKET)));
    lemma_concat_prefix_at(s, i, enc_str(f.name@), seq![COLON, LBRACKET] + enc_strlist(
        f.enables@,
    ).push(RBRACKET));
    let j = i + enc_str(f.name@).len() as int;
    lemma_concat_prefix_at(s, j, seq![COLON, LBRACKET], enc_strlist(f.enables@).push(RBRACKET));
    lemma_prefix_index(s, j, seq![COLON, LBRACKET], 0);
    lemma_prefix_index(s, j, seq![COLON, LBRACKET], 1);
    assert(s[j] == COLON && s[j + 1] == LBRACKET);
    lemma_parse_jstring_of_enc(s, i, f.name@);
    lemma_parse_strlist_block_of_enc(s, j + 2, f.enables@);
    assert(feature_view(f) == (f.name@, strlist_view(f.enables@)));
}

/// Parsing inverts the feature-map continuation.
pub proof fn lemma_parse_features_rest_of_enc(s: Seq<u8>, i: int, fs: Seq<FeatureEntry>)
    requires
        0 <= i,
        has_prefix_at(s, i, enc_features_tail(fs).push(RBRACE)),
    ensures
        parse_features_rest(s, i) == Some((features_view(fs), i + enc_features_tail(fs).len())),
    decreases fs.len(),
{
    if fs.len() == 0 {
        assert(enc_features_tail(fs) =~= Seq::<u8>::empty());
        assert(enc_features_tail(fs).push(RBRACE) =~= seq![RBRACE]);
        lemma_prefix_index(s, i, enc_features_tail(fs).push(RBRACE), 0);
        assert(s[i] == RBRACE);
        assert(features_view(fs) =~= Seq::<(Seq<u8>, Seq<Seq<u8>>)>::empty());
    } else {
        let f0 = fs[0];
        let rest = enc_features_tail(fs.skip(1));
        assert(enc_features_tail(fs).push(RBRACE) =~= seq![COMMA] + (enc_feature(f0) + rest.push(
            RBRACE,
        )));
        lemma_concat_prefix_at(s, i, seq![COMMA], enc_feature(f0) + rest.push(RBRACE));
        lemma_concat_prefix_at(s, i + 1, enc_feature(f0), rest.push(RBRACE));
        lemma_prefix_index(s, i, seq![COMMA], 0);
        assert(s[i] == COMMA);
        lemma_parse_feature_of_enc(s, i + 1, f0);
        let j = i + 1 + enc_feature(f0).len() as int;
        lemma_parse_features_rest_of_enc(s, j, fs.skip(1));
        assert(seq![feature_view(f0)] + features_view(fs.skip(1)) =~= features_view(fs));
        assert(i + enc_features_tail(fs).len() == j + rest.len());
    }
}

/// Parsing inverts the braced feature map.
pub proof fn lemma_parse_features_block_of_enc(s: Seq<u8>, i: int, fs: Seq<FeatureEntry>)
    requires
        0 <= i,
        has_prefix_at(s, i, enc_features(fs).push(RBRACE)),
    ensures
        parse_features_block(s, i) == Some((features_view(fs), i + enc_features(fs).len() + 1)),
{
    if fs.len() == 0 {
        assert(enc_features(fs) =~= Seq::<u8>::empty());
        assert(enc_features(fs).push(RBRACE) =~= seq![RBRACE]);
        lemma_prefix_index(s, i, enc_features(fs).push(RBRACE), 0);
        assert(s[i] == RBRACE);
        assert(features_view(fs) =~= Seq::<(Seq<u8>, Seq<Seq<u8>>)>::empty());
    } else {
        lemma_enc_features_head(fs);
        let f0 = fs[0];
        let rest = enc_features_tail(fs.skip(1));
        assert(enc_features(fs).push(RBRACE) =~= enc_feature(f0) + rest.push(RBRACE));
        lemma_concat_prefix_at(s, i, enc_feature(f0), rest.push(RBRACE));
        lemma_prefix_index(s, i, enc_feature(f0), 0);
        assert(s[i] == QUOTE);
        lemma_parse_feature_of_enc(s, i, f0);
        let j = i + enc_feature(f0).len() as int;
        lemma_parse_features_rest_of_enc(s, j, fs.skip(1));
        let e = j + rest.len() as int;
        assert(rest.push(RBRACE) =~= rest + seq![RBRACE]);
        lemma_concat_prefix_at(s, j, rest, seq![RBRACE]);
        lemma_prefix_index(s, e, seq![RBRACE], 0);
        assert(s[e] == RBRACE);
        assert(seq![feature_view(f0)] + features_view(fs.skip(1)) =~= features_view(fs));
    }
}


pub open spec fn pos_a(r: VersionRecord) -> int {
    8 + enc_str(r.name@).len() as int
}

pub open spec fn pos_b(r: VersionRecord) -> int {
    pos_a(r) + 8 + enc_str(r.vers@).len() as int
}

pub open spec fn pos_c(r: VersionRecord) -> int {
    pos_b(r) + 9 + enc_deps(r.deps@).len() as int + 1
}

pub open spec fn pos_d(r: VersionRecord) -> int {
    pos_c(r) + 9 + enc_str(r.cksum@).len() as int
}

pub open spec fn pos_e(r: VersionRecord) -> int {
    pos_d(r) + 13 + enc_features(r.features@).len() as int + 1
}

/// The back chunks of an encoded record: everything from the checksum
/// key on, and the front part as one prefix.
#[verifier::rlimit(100)]
proof fn lemma_record_line_chunks_back(r: VersionRecord)
    ensures
        has_prefix_at(
            enc_record(r),
            0,
            lit_name_key() + enc_str(r.name@) + lit_vers_key() + enc_str(r.vers@) + lit_deps_key()
                + enc_deps(r.deps@) + seq![RBRACKET],
        ),
        has_prefix_at(enc_record(r), pos_c(r), lit_cksum_key()),
        has_prefix_at(enc_record(r), pos_c(r) + 9, enc_str(r.cksum@)),
        has_prefix_at(enc_record(r), pos_d(r), lit_features_key()),
        has_prefix_at(
            enc_record(r),
            pos_d(r) + 13,
            enc_features(r.features@).push(RBRACE),
        ),
        has_prefix_at(enc_record(r), pos_e(r), lit_yanked_key()),
        r.yanked ==> has_prefix_at(enc_record(r), pos_e(r) + 10, lit_true()) && enc_record(
            r,
        ).len() == pos_e(r) + 15 && enc_record(r)[pos_e(r) + 14] == RBRACE,
        !r.yanked ==> has_prefix_at(enc_record(r), pos_e(r) + 10, lit_false()) && enc_record(
            r,
        ).len() == pos_e(r) + 16 && enc_record(r)[pos_e(r) + 15] == RBRACE,
{
    let s = enc_record(r);
    let yank = if r.yanked {
        lit_true()
    } else {
        lit_false()
    };
    let t7 = lit_name_key() + enc_str(r.name@) + lit_vers_key() + enc_str(r.vers@)
        + lit_deps_key() + enc_deps(r.deps@) + seq![RBRACKET];
    let t8 = t7 + lit_cksum_key();
    let t9 = t8 + enc_str(r.cksum@);
    let t10 = t9 + lit_features_key();
    let t11 = t10 + enc_features(r.features@);
    let t12 = t11 + seq![RBRACE];
    let t13 = t12 + lit_yanked_key();
    let t14 = t13 + yank;
    assert(s == t14 + seq![RBRACE]);
    assert(s.subrange(0, s.len() as int) =~= s);
    assert(has_prefix_at(s, 0, s));
    lemma_concat_prefix_at(s, 0, t14, seq![RBRACE]);
    lemma_concat_prefix_at(s, 0, t13, yank);
    lemma_concat_prefix_at(s, 0, t12, lit_yanked_key());
    lemma_concat_prefix_at(s, 0, t11, seq![RBRACE]);
    lemma_concat_prefix_at(s, 0, t10, enc_features(r.features@));
    lemma_concat_prefix_at(s, 0, t9, lit_features_key());
    lemma_concat_prefix_at(s, 0, t8, enc_str(r.cksum@));
    lemma_concat_prefix_at(s, 0, t7, lit_cksum_key());
    assert(t7.len() == pos_c(r) && t8.len() == pos_c(r) + 9 && t9.len() == pos_d(r));
    assert(t10.len() == pos_d(r) + 13 && t12.len() == pos_e(r) && t13.len() == pos_e(r) + 10);
    lemma_join_prefix_at(s, t10.len() as int, enc_features(r.features@), seq![RBRACE]);
    assert(enc_features(r.features@).push(RBRACE) =~= enc_features(r.features@) + seq![RBRACE]);
    lemma_prefix_index(s, t14.len() as int, seq![RBRACE], 0);
}

/// The front chunks of an encoded record: the name, version string and
/// dependency list.
#[verifier::rlimit(100)]
proof fn lemma_record_line_chunks_front(r: VersionRecord)
    ensures
        has_prefix_at(enc_record(r), 0, lit_name_key()),
        has_prefix_at(enc_record(r), 8, enc_str(r.name@)),
        has_prefix_at(enc_record(r), pos_a(r), lit_vers_key()),
        has_prefix_at(enc_record(r), pos_a(r) + 8, enc_str(r.vers@)),
        has_prefix_at(enc_record(r), pos_b(r), lit_deps_key()),
        has_prefix_at(enc_record(r), pos_b(r) + 9, enc_deps(r.deps@).push(RBRACKET)),
{
    let s = enc_record(r);
    lemma_record_line_chunks_back(r);
    let t1 = lit_name_key();
    let t2 = t1 + enc_str(r.name@);
    let t3 = t2 + lit_vers_key();
    let t4 = t3 + enc_str(r.vers@);
    let t5 = t4 + lit_deps_key();
    let t6 = t5 + enc_deps(r.deps@);
    let t7 = t6 + seq![RBRACKET];
    lemma_concat_prefix_at(s, 0, t6, seq![RBRACKET]);
    lemma_concat_prefix_at(s, 0, t5, enc_deps(r.deps@));
    lemma_concat_prefix_at(s, 0, t4, lit_deps_key());
    lemma_concat_prefix_at(s, 0, t3, enc_str(r.vers@));
    lemma_concat_prefix_at(s, 0, t2, lit_vers_key());
    lemma_concat_prefix_at(s, 0, t1, enc_str(r.name@));
    assert(t1.len() == 8 && t2.len() == pos_a(r) && t3.len() == pos_a(r) + 8 && t4.len() == pos_b(
        r,
    ));
    assert(t5.len() == pos_b(r) + 9);
    lemma_join_prefix_at(s, t5.len() as int, enc_deps(r.deps@), seq![RBRACKET]);
    assert(enc_deps(r.deps@).push(RBRACKET) =~= enc_deps(r.deps@) + seq![RBRACKET]);
}

/// Where each field of an encoded record stands, and what the field
/// parsers find there.
#[verifier::rlimit(100)]
proof fn lemma_record_line_fields(r: VersionRecord)
    ensures
        has_prefix_at(enc_record(r), 0, lit_name_key()),
        parse_jstring(enc_record(r), 8) == Some((r.name@, pos_a(r))),
        has_prefix_at(enc_record(r), pos_a(r), lit_vers_key()),
        parse_jstring(enc_record(r), pos_a(r) + 8) == Some((r.vers@, pos_b(r))),
        has_prefix_at(enc_record(r), pos_b(r), lit_deps_key()),
        parse_deps_block(enc_record(r), pos_b(r) + 9) == Some((deps_view(r.deps@), pos_c(r))),
        has_prefix_at(enc_record(r), pos_c(r), lit_cksum_key()),
        parse_jstring(enc_record(r), pos_c(r) + 9) == Some((r.cksum@, pos_d(r))),
        has_prefix_at(enc_record(r), pos_d(r), lit_features_key()),
        parse_features_block(enc_record(r), pos_d(r) + 13) == Some(
            (features_view(r.features@), pos_e(r)),
        ),
        has_prefix_at(enc_record(r), pos_e(r), lit_yanked_key()),
        r.yanked ==> has_prefix_at(enc_record(r), pos_e(r) + 10, lit_true()) && enc_record(
            r,
        ).len() == pos_e(r) + 15 && enc_record(r)[pos_e(r) + 14] == RBRACE,
        !r.yanked ==> has_prefix_at(enc_record(r), pos_e(r) + 10, lit_false()) && enc_record(
            r,
        ).len() == pos_e(r) + 16 && enc_record(r)[pos_e(r) + 15] == RBRACE,
{
    let s = enc_record(r);
    lemma_record_line_chunks_back(r);
    lemma_record_line_chunks_front(r);
    lemma_parse_jstring_of_enc(s, 8, r.name@);
    lemma_parse_jstring_of_enc(s, pos_a(r) + 8, r.vers@);
    lemma_parse_deps_block_of_enc(s, pos_b(r) + 9, r.deps@);
    lemma_parse_jstring_of_enc(s, pos_c(r) + 9, r.cksum@);
    lemma_parse_features_block_of_enc(s, pos_d(r) + 13, r.features@);
}

/// A record line parses back as exactly the record that was encoded:
/// every line the registry appends to an index entry file is a complete,
/// well-formed version record, and nothing else.
#[verifier::rlimit(100)]
pub proof fn lemma_record_line_round_trip(r: VersionRecord)
    ensures
        parse_record_parts(enc_record(r)) == Some(
            (r.name@, r.vers@, deps_view(r.deps@), r.cksum@, features_view(r.features@), r.yanked),
        ),
        r.wf() ==> parts_wf(
            (r.name@, r.vers@, deps_view(r.deps@), r.cksum@, features_view(r.features@), r.yanked),
        ),
{
    lemma_record_line_fields(r);
    let s = enc_record(r);
    if r.yanked {
        assert(s.len() != pos_e(r) + 16);
        assert(parse_record_parts(s) == Some(
            (r.name@, r.vers@, deps_view(r.deps@), r.cksum@, features_view(r.features@), true),
        ));
    } else {
        assert(s.len() != pos_e(r) + 15);
        assert(parse_record_parts(s) == Some(
            (r.name@, r.vers@, deps_view(r.deps@), r.cksum@, features_view(r.features@), false),
        ));
    }
}

} // verus!
