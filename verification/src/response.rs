//! The response body codec: the registry reports a request's outcome as a
//! JSON error array, `{"errors":[{"detail":"..."},...]}`. Success is an
//! empty body; failures carry one detail string per cause. A hand-built
//! fallback encoding reports failures of the encoding step itself without
//! going through the normal encoder.

use vstd::prelude::*;

use crate::errors::RegistryError;
use crate::errors::RegistryErrors;
use crate::json::all_plain;
use crate::json::escaped;
use crate::json::has_prefix_at;
use crate::json::is_ws;
use crate::json::lemma_escaped_plain;
use crate::json::exec_strbody;
use crate::json::push_escaped;
use crate::json::push_raw;
use crate::json::lemma_parse_strbody_bounds;
use crate::json::lemma_parse_strbody_of_escaped;
use crate::json::lemma_prefix_index;
use crate::json::lemma_prefix_sub;
use crate::json::lemma_ws_end_bounds;
use crate::json::parse_strbody;
use crate::json::ws_end;
use crate::json::BACKSLASH;
use crate::json::COMMA;
use crate::json::QUOTE;
use crate::json::RBRACE;
use crate::json::RBRACKET;

verus! {

/// The opening bytes of every response payload: `{"errors":[`.
pub open spec fn errors_open() -> Seq<u8> {
    seq![123u8, 34, 101, 114, 114, 111, 114, 115, 34, 58, 91]
}

/// The opening bytes of one error object: `{"detail":"`.
pub open spec fn detail_open() -> Seq<u8> {
    seq![123u8, 34, 100, 101, 116, 97, 105, 108, 34, 58, 34]
}

/// The fixed first detail of the fallback payload:
/// `failed to convert internal error to JSON`.
pub open spec fn fallback_msg() -> Seq<u8> {
    seq![
        102u8, 97, 105, 108, 101, 100, 32, 116, 111, 32, 99, 111, 110, 118, 101, 114, 116, 32,
        105, 110, 116, 101, 114, 110, 97, 108, 32, 101, 114, 114, 111, 114, 32, 116, 111, 32, 74,
        83, 79, 78,
    ]
}

/// One encoded error object: `{"detail":"` + escaped detail + `"}`.
pub open spec fn detail_obj(d: Seq<u8>) -> Seq<u8> {
    detail_open() + escaped(d) + seq![QUOTE, RBRACE]
}

/// The encoded continuation of an error list: `,` and an object, repeated.
pub open spec fn detail_list_rest(ds: Seq<Seq<u8>>) -> Seq<u8>
    decreases ds.len(),
{
    if ds.len() == 0 {
        Seq::empty()
    } else {
        seq![COMMA] + detail_obj(ds[0]) + detail_list_rest(ds.skip(1))
    }
}

/// The encoded error list, objects separated by commas.
pub open spec fn detail_list(ds: Seq<Seq<u8>>) -> Seq<u8> {
    if ds.len() == 0 {
        Seq::empty()
    } else {
        detail_obj(ds[0]) + detail_list_rest(ds.skip(1))
    }
}

/// The full response payload for the given ordered detail strings.
pub open spec fn encoded_errors(ds: Seq<Seq<u8>>) -> Seq<u8> {
    errors_open() + detail_list(ds) + seq![RBRACKET, RBRACE]
}

/// A newline and four spaces, as the fallback payload lays out its array.
pub open spec fn fallback_gap() -> Seq<u8> {
    seq![10u8, 32, 32, 32, 32]
}

/// Everything of the fallback payload that comes before the cause: the
/// array opening, a line break, the fixed conversion-failure detail, a
/// comma, another line break, and the opening of the cause's own object.
pub open spec fn fallback_head() -> Seq<u8> {
    errors_open() + fallback_gap() + detail_obj(fallback_msg()) + seq![COMMA] + fallback_gap()
        + detail_open()
}

/// Everything of the fallback payload that comes after the cause: the
/// closing of its object, a line break, and the array closing.
pub open spec fn fallback_tail() -> Seq<u8> {
    seq![QUOTE, RBRACE, 10, 32, 32, RBRACKET, RBRACE]
}

/// The fallback payload for a cause string `c`: the same shape as
/// `encoded_errors`, with fixed line breaks, a fixed first detail, and the
/// cause written verbatim (no escaping: it is a last resort).
pub open spec fn fallback_encoded(c: Seq<u8>) -> Seq<u8> {
    fallback_head() + c + fallback_tail()
}

/// Parse one error object at position `i`: `{"detail":"` then a string
/// body, then `}`.
pub open spec fn parse_detail(s: Seq<u8>, i: int) -> Option<(Seq<u8>, int)> {
    if has_prefix_at(s, i, detail_open()) {
        match parse_strbody(s, i + detail_open().len()) {
            Some((d, j)) => {
                if j < s.len() && s[j] == RBRACE {
                    Some((d, j + 1))
                } else {
                    None
                }
            },
            None => None,
        }
    } else {
        None
    }
}

pub proof fn lemma_parse_detail_bounds(s: Seq<u8>, i: int)
    requires
        0 <= i <= s.len(),
        parse_detail(s, i) is Some,
    ensures
        i < parse_detail(s, i).unwrap().1 <= s.len(),
{
    lemma_parse_strbody_bounds(s, i + detail_open().len());
}

/// Parse the remaining error objects after one object: optionally
/// whitespace, a comma, whitespace and a further object, repeatedly;
/// return the parsed details and the position of the first byte after the
/// last object and any following whitespace.
pub open spec fn parse_details_rest(s: Seq<u8>, i: int) -> Option<(Seq<Seq<u8>>, int)>
    decreases s.len() - i when 0 <= i <= s.len()
    via parse_details_rest_decreases
{
    let k = ws_end(s, i);
    if k < s.len() && s[k] == COMMA {
        let m = ws_end(s, k + 1);
        match parse_detail(s, m) {
            Some((d, j)) => match parse_details_rest(s, j) {
                Some((ds, e)) => Some((seq![d] + ds, e)),
                None => None,
            },
            None => None,
        }
    } else {
        Some((Seq::empty(), k))
    }
}

#[via_fn]
proof fn parse_details_rest_decreases(s: Seq<u8>, i: int) {
    let k = ws_end(s, i);
    lemma_ws_end_bounds(s, i);
    if k < s.len() && s[k] == COMMA {
        let m = ws_end(s, k + 1);
        lemma_ws_end_bounds(s, k + 1);
        if parse_detail(s, m) is Some {
            lemma_parse_detail_bounds(s, m);
        }
    }
}

/// Parse a full response payload: the details it carries, in order, or
/// nothing if the bytes are not a well-formed error array.
pub open spec fn parse_registry_errors(s: Seq<u8>) -> Option<Seq<Seq<u8>>> {
    if has_prefix_at(s, 0, errors_open()) {
        let k = ws_end(s, errors_open().len() as int);
        if s.len() >= 2 && k == s.len() - 2 && s[k] == RBRACKET && s[k + 1] == RBRACE {
            Some(Seq::empty())
        } else {
            match parse_detail(s, k) {
                Some((d, j)) => match parse_details_rest(s, j) {
                    Some((ds, e)) => {
                        if s.len() >= 2 && e == s.len() - 2 && s[e] == RBRACKET && s[e + 1] == RBRACE {
                            Some(seq![d] + ds)
                        } else {
                            None
                        }
                    },
                    None => None,
                },
                None => None,
            }
        }
    } else {
        None
    }
}

/// The fixed fallback detail contains no quote and no backslash.
pub proof fn lemma_fallback_msg_plain()
    ensures
        all_plain(fallback_msg()),
{
    assert(forall|i: int| 0 <= i < 40 ==> fallback_msg()[i] != QUOTE && fallback_msg()[i]
        != crate::json::BACKSLASH);
}

/// Splitting a prefix that is a concatenation.
pub proof fn lemma_concat_prefix_at(s: Seq<u8>, i: int, a: Seq<u8>, b: Seq<u8>)
    requires
        has_prefix_at(s, i, a + b),
    ensures
        has_prefix_at(s, i, a),
        has_prefix_at(s, i + a.len(), b),
{
    let p = a + b;
    assert(p.subrange(0, a.len() as int) =~= a);
    assert(p.subrange(a.len() as int, p.len() as int) =~= b);
    lemma_prefix_sub(s, i, p, 0, a.len() as int);
    lemma_prefix_sub(s, i, p, a.len() as int, p.len() as int);
}

/// Joining two adjacent prefixes.
pub proof fn lemma_join_prefix_at(s: Seq<u8>, i: int, a: Seq<u8>, b: Seq<u8>)
    requires
        has_prefix_at(s, i, a),
        has_prefix_at(s, i + a.len(), b),
    ensures
        has_prefix_at(s, i, a + b),
{
    assert(s.subrange(i, i + a.len() + b.len()) =~= a + b) by {
        assert forall|k: int| 0 <= k < a.len() + b.len() implies s.subrange(
            i,
            i + a.len() + b.len(),
        )[k] == (a + b)[k] by {
            if k < a.len() {
                lemma_prefix_index(s, i, a, k);
            } else {
                lemma_prefix_index(s, i + a.len(), b, k - a.len());
            }
        }
    }
}

/// A run of whitespace followed by a non-whitespace byte (or the end)
/// fixes where whitespace skipping stops.
pub proof fn lemma_ws_end_run(s: Seq<u8>, i: int, j: int)
    requires
        0 <= i <= j <= s.len(),
        forall|k: int| i <= k < j ==> is_ws(s[k]),
        j == s.len() || !is_ws(s[j]),
    ensures
        ws_end(s, i) == j,
    decreases j - i,
{
    if i < j {
        lemma_ws_end_run(s, i + 1, j);
    }
}

/// Parsing inverts the object encoding: wherever `detail_obj(d)` stands
/// in `s`, the object parser recovers exactly `d`.
pub proof fn lemma_parse_detail_of_encoded(s: Seq<u8>, i: int, d: Seq<u8>)
    requires
        0 <= i,
        has_prefix_at(s, i, detail_obj(d)),
    ensures
        parse_detail(s, i) == Some((d, i + detail_obj(d).len())),
{
    let obj = detail_obj(d);
    let e = escaped(d);
    assert(obj =~= detail_open() + (e.push(QUOTE) + seq![RBRACE]));
    lemma_concat_prefix_at(s, i, detail_open(), e.push(QUOTE) + seq![RBRACE]);
    lemma_concat_prefix_at(s, i + 11, e.push(QUOTE), seq![RBRACE]);
    lemma_parse_strbody_of_escaped(s, i + 11, d);
    let j: int = i + 11 + e.len() as int + 1;
    lemma_prefix_index(s, j, seq![RBRACE], 0);
    assert(s[j] == RBRACE);
    assert(parse_detail(s, i) == Some((d, j + 1)));
}

/// Parsing inverts the list-continuation encoding when it is followed by
/// the closing `]}` at the end of the input.
pub proof fn lemma_parse_details_rest_of_encoded(s: Seq<u8>, i: int, ds: Seq<Seq<u8>>)
    requires
        0 <= i,
        has_prefix_at(s, i, detail_list_rest(ds) + seq![RBRACKET, RBRACE]),
        i + detail_list_rest(ds).len() + 2 == s.len(),
    ensures
        parse_details_rest(s, i) == Some((ds, i + detail_list_rest(ds).len())),
    decreases ds.len(),
{
    if ds.len() == 0 {
        assert(detail_list_rest(ds) =~= Seq::<u8>::empty());
        assert(detail_list_rest(ds) + seq![RBRACKET, RBRACE] =~= seq![RBRACKET, RBRACE]);
        lemma_prefix_index(s, i, detail_list_rest(ds) + seq![RBRACKET, RBRACE], 0);
        assert(s[i] == RBRACKET);
        assert(ws_end(s, i) == i);
        assert(parse_details_rest(s, i) == Some((Seq::<Seq<u8>>::empty(), i)));
    } else {
        let obj = detail_obj(ds[0]);
        let rest = detail_list_rest(ds.skip(1));
        assert(detail_list_rest(ds) + seq![RBRACKET, RBRACE] =~= seq![COMMA] + (obj + (rest
            + seq![RBRACKET, RBRACE])));
        lemma_concat_prefix_at(s, i, seq![COMMA], obj + (rest + seq![RBRACKET, RBRACE]));
        lemma_concat_prefix_at(s, i + 1, obj, rest + seq![RBRACKET, RBRACE]);
        lemma_prefix_index(s, i, seq![COMMA], 0);
        assert(s[i] == COMMA);
        assert(!is_ws(s[i]));
        assert(ws_end(s, i) == i);
        lemma_prefix_index(s, i + 1, obj, 0);
        assert(s[i + 1] == 123);
        assert(ws_end(s, i + 1) == i + 1);
        lemma_parse_detail_of_encoded(s, i + 1, ds[0]);
        let j: int = i + 1 + obj.len() as int;
        lemma_parse_details_rest_of_encoded(s, j, ds.skip(1));
        assert(seq![ds[0]] + ds.skip(1) =~= ds);
        assert(i + detail_list_rest(ds).len() == j + rest.len());
    }
}

/// Encoding then decoding a response payload recovers exactly the detail
/// strings that were encoded, in order.
#[verifier::rlimit(100)]
pub proof fn lemma_errors_round_trip(ds: Seq<Seq<u8>>)
    ensures
        parse_registry_errors(encoded_errors(ds)) == Some(ds),
{
    let s = encoded_errors(ds);
    assert(s.subrange(0, 11) =~= errors_open());
    assert(has_prefix_at(s, 0, errors_open()));
    if ds.len() == 0 {
        assert(detail_list(ds) =~= Seq::<u8>::empty());
        assert(s =~= errors_open() + seq![RBRACKET, RBRACE]);
        assert(s.len() == 13);
        assert(s[11] == RBRACKET && s[12] == RBRACE);
        assert(!is_ws(s[11]));
        assert(ws_end(s, 11) == 11);
        assert(parse_registry_errors(s) == Some(Seq::<Seq<u8>>::empty()));
        assert(Seq::<Seq<u8>>::empty() =~= ds);
    } else {
        let obj = detail_obj(ds[0]);
        let rest = detail_list_rest(ds.skip(1));
        assert(s =~= errors_open() + (obj + (rest + seq![RBRACKET, RBRACE])));
        assert(s.subrange(0, s.len() as int) =~= s);
        assert(has_prefix_at(s, 0, s));
        lemma_concat_prefix_at(s, 0, errors_open(), obj + (rest + seq![RBRACKET, RBRACE]));
        lemma_concat_prefix_at(s, 11, obj, rest + seq![RBRACKET, RBRACE]);
        lemma_prefix_index(s, 11, obj, 0);
        assert(s[11] == 123);
        assert(!is_ws(s[11]));
        assert(ws_end(s, 11) == 11);
        lemma_parse_detail_of_encoded(s, 11, ds[0]);
        let j: int = 11 + obj.len() as int;
        lemma_parse_details_rest_of_encoded(s, j, ds.skip(1));
        let e: int = j + rest.len() as int;
        assert(e + 2 == s.len());
        lemma_concat_prefix_at(s, j, rest, seq![RBRACKET, RBRACE]);
        lemma_prefix_index(s, e, seq![RBRACKET, RBRACE], 0);
        lemma_prefix_index(s, e, seq![RBRACKET, RBRACE], 1);
        assert(s[e] == RBRACKET && s[e + 1] == RBRACE);
        assert(parse_registry_errors(s) == Some(seq![ds[0]] + ds.skip(1)));
        assert(seq![ds[0]] + ds.skip(1) =~= ds);
    }
}

/// The hand-built fallback payload is itself valid against the normal
/// decoder: for a cause without quotes or backslashes it decodes to the
/// fixed conversion-failure detail followed by the cause, verbatim.
/// What the parser finds in the head of a fallback payload.
#[verifier::rlimit(100)]
proof fn lemma_fallback_head_parses(s: Seq<u8>)
    requires
        has_prefix_at(s, 0, fallback_head()),
    ensures
        has_prefix_at(s, 0, errors_open()),
        ws_end(s, 11) == 16,
        s[16] != RBRACKET,
        parse_detail(s, 16) == Some((fallback_msg(), 69int)),
        s[69] == COMMA,
        ws_end(s, 69) == 69,
        ws_end(s, 70) == 75,
        has_prefix_at(s, 75, detail_open()),
{
    let mobj = detail_obj(fallback_msg());
    lemma_fallback_msg_plain();
    lemma_escaped_plain(fallback_msg());
    assert(mobj.len() == 53);
    assert(fallback_head() =~= errors_open() + (fallback_gap() + (mobj + (seq![COMMA] + (
    fallback_gap() + detail_open())))));
    lemma_concat_prefix_at(s, 0, errors_open(), fallback_gap() + (mobj + (seq![COMMA] + (
    fallback_gap() + detail_open()))));
    lemma_concat_prefix_at(s, 11, fallback_gap(), mobj + (seq![COMMA] + (fallback_gap()
        + detail_open())));
    lemma_concat_prefix_at(s, 16, mobj, seq![COMMA] + (fallback_gap() + detail_open()));
    lemma_concat_prefix_at(s, 69, seq![COMMA], fallback_gap() + detail_open());
    lemma_concat_prefix_at(s, 70, fallback_gap(), detail_open());
    assert(forall|k: int| 11 <= k < 16 ==> is_ws(s[k])) by {
        assert forall|k: int| 11 <= k < 16 implies is_ws(s[k]) by {
            lemma_prefix_index(s, 11, fallback_gap(), k - 11);
        }
    }
    lemma_prefix_index(s, 16, mobj, 0);
    assert(s[16] == 123);
    lemma_ws_end_run(s, 11, 16);
    lemma_parse_detail_of_encoded(s, 16, fallback_msg());
    lemma_prefix_index(s, 69, seq![COMMA], 0);
    assert(s[69] == COMMA);
    assert(ws_end(s, 69) == 69);
    assert(forall|k: int| 70 <= k < 75 ==> is_ws(s[k])) by {
        assert forall|k: int| 70 <= k < 75 implies is_ws(s[k]) by {
            lemma_prefix_index(s, 70, fallback_gap(), k - 70);
        }
    }
    lemma_prefix_index(s, 75, detail_open(), 0);
    assert(s[75] == 123);
    lemma_ws_end_run(s, 70, 75);
}

/// What the parser finds from the cause's object to the end of a
/// fallback payload.
#[verifier::rlimit(100)]
proof fn lemma_fallback_cause_parses(s: Seq<u8>, c: Seq<u8>)
    requires
        all_plain(c),
        has_prefix_at(s, 75, detail_open()),
        has_prefix_at(s, 86, c),
        has_prefix_at(s, 86 + c.len() as int, fallback_tail()),
        s.len() == 93 + c.len(),
    ensures
        parse_detail(s, 75) == Some((c, 88 + c.len() as int)),
        parse_details_rest(s, 88 + c.len() as int) == Some((Seq::<Seq<u8>>::empty(), 91
            + c.len() as int)),
        s[91 + c.len() as int] == RBRACKET,
        s[92 + c.len() as int] == RBRACE,
{
    let ce: int = 86 + c.len() as int;
    lemma_escaped_plain(c);
    assert(fallback_tail() =~= seq![QUOTE, RBRACE] + (seq![10u8, 32, 32] + seq![RBRACKET,
        RBRACE]));
    lemma_concat_prefix_at(s, ce, seq![QUOTE, RBRACE], seq![10u8, 32, 32] + seq![RBRACKET,
        RBRACE]);
    lemma_concat_prefix_at(s, ce + 2, seq![10u8, 32, 32], seq![RBRACKET, RBRACE]);
    lemma_prefix_index(s, ce, seq![QUOTE, RBRACE], 0);
    lemma_prefix_index(s, ce, seq![QUOTE, RBRACE], 1);
    lemma_join_prefix_at(s, 86, c, seq![QUOTE, RBRACE]);
    assert(c + seq![QUOTE, RBRACE] =~= escaped(c).push(QUOTE) + seq![RBRACE]);
    lemma_concat_prefix_at(s, 86, escaped(c).push(QUOTE), seq![RBRACE]);
    lemma_join_prefix_at(s, 75, detail_open(), c);
    lemma_join_prefix_at(s, 75, detail_open() + c, seq![QUOTE, RBRACE]);
    assert(detail_open() + c + seq![QUOTE, RBRACE] =~= detail_obj(c));
    lemma_parse_detail_of_encoded(s, 75, c);
    assert(detail_obj(c).len() == 13 + c.len());
    assert(forall|k: int| ce + 2 <= k < ce + 5 ==> is_ws(s[k])) by {
        assert forall|k: int| ce + 2 <= k < ce + 5 implies is_ws(s[k]) by {
            lemma_prefix_index(s, ce + 2, seq![10u8, 32, 32], k - (ce + 2));
        }
    }
    lemma_prefix_index(s, ce + 5, seq![RBRACKET, RBRACE], 0);
    lemma_prefix_index(s, ce + 5, seq![RBRACKET, RBRACE], 1);
    assert(s[ce + 5] == RBRACKET && s[ce + 6] == RBRACE);
    lemma_ws_end_run(s, ce + 2, ce + 5);
    assert(parse_details_rest(s, ce + 2) == Some((Seq::<Seq<u8>>::empty(), ce + 5)));
}

/// The hand-built fallback payload is itself valid against the normal
/// decoder: for a cause without quotes or backslashes it decodes to the
/// fixed conversion-failure detail followed by the cause, verbatim.
#[verifier::rlimit(100)]
pub proof fn lemma_fallback_round_trip(c: Seq<u8>)
    requires
        all_plain(c),
    ensures
        parse_registry_errors(fallback_encoded(c)) == Some(seq![fallback_msg(), c]),
{
    let s = fallback_encoded(c);
    let ce: int = 86 + c.len() as int;
    lemma_fallback_msg_plain();
    lemma_escaped_plain(fallback_msg());
    assert(s.subrange(0, s.len() as int) =~= s);
    assert(has_prefix_at(s, 0, s));
    assert(s =~= fallback_head() + (c + fallback_tail()));
    lemma_concat_prefix_at(s, 0, fallback_head(), c + fallback_tail());
    assert(fallback_head().len() == 86);
    lemma_concat_prefix_at(s, 86, c, fallback_tail());
    assert(s.len() == 93 + c.len());
    lemma_fallback_head_parses(s);
    lemma_fallback_cause_parses(s, c);
    assert(parse_details_rest(s, 69) == Some((seq![c], ce + 5)));
    assert(parse_registry_errors(s) == Some(seq![fallback_msg()] + seq![c]));
    assert(seq![fallback_msg()] + seq![c] =~= seq![fallback_msg(), c]);
}


/// Append the literal `{"errors":[` to `out`.
fn push_errors_open(out: &mut Vec<u8>)
    ensures
        final(out)@ == old(out)@ + errors_open(),
{
    out.push(123);
    out.push(34);
    out.push(101);
    out.push(114);
    out.push(114);
    out.push(111);
    out.push(114);
    out.push(115);
    out.push(34);
    out.push(58);
    out.push(91);
    proof {
        assert(out@ =~= old(out)@ + errors_open());
    }
}

/// Append the literal `{"detail":"` to `out`.
fn push_detail_open(out: &mut Vec<u8>)
    ensures
        final(out)@ == old(out)@ + detail_open(),
{
    out.push(123);
    out.push(34);
    out.push(100);
    out.push(101);
    out.push(116);
    out.push(97);
    out.push(105);
    out.push(108);
    out.push(34);
    out.push(58);
    out.push(34);
    proof {
        assert(out@ =~= old(out)@ + detail_open());
    }
}

/// Append the fixed conversion-failure detail to `out`.
fn push_fallback_msg(out: &mut Vec<u8>)
    ensures
        final(out)@ == old(out)@ + fallback_msg(),
{
    out.push(102);
    out.push(97);
    out.push(105);
    out.push(108);
    out.push(101);
    out.push(100);
    out.push(32);
    out.push(116);
    out.push(111);
    out.push(32);
    out.push(99);
    out.push(111);
    out.push(110);
    out.push(118);
    out.push(101);
    out.push(114);
    out.push(116);
    out.push(32);
    out.push(105);
    out.push(110);
    out.push(116);
    out.push(101);
    out.push(114);
    out.push(110);
    out.push(97);
    out.push(108);
    out.push(32);
    out.push(101);
    out.push(114);
    out.push(114);
    out.push(111);
    out.push(114);
    out.push(32);
    out.push(116);
    out.push(111);
    out.push(32);
    out.push(74);
    out.push(83);
    out.push(79);
    out.push(78);
    proof {
        assert(out@ =~= old(out)@ + fallback_msg());
    }
}

/// Append a newline and four spaces to `out`.
fn push_gap(out: &mut Vec<u8>)
    ensures
        final(out)@ == old(out)@ + fallback_gap(),
{
    out.push(10);
    out.push(32);
    out.push(32);
    out.push(32);
    out.push(32);
    proof {
        assert(out@ =~= old(out)@ + fallback_gap());
    }
}

/// Appending a detail to a list extends its encoding by a comma and one
/// object (the comma only after a first element).
proof fn lemma_detail_list_rest_snoc(ds: Seq<Seq<u8>>, d: Seq<u8>)
    ensures
        detail_list_rest(ds.push(d)) == detail_list_rest(ds) + seq![COMMA] + detail_obj(d),
    decreases ds.len(),
{
    if ds.len() == 0 {
        assert(ds.push(d)[0] == d);
        assert(ds.push(d).skip(1) =~= Seq::<Seq<u8>>::empty());
        assert(detail_list_rest(Seq::<Seq<u8>>::empty()) =~= Seq::<u8>::empty());
        assert(detail_list_rest(ds.push(d)) =~= detail_list_rest(ds) + seq![COMMA]
            + detail_obj(d));
    } else {
        assert(ds.push(d).skip(1) =~= ds.skip(1).push(d));
        lemma_detail_list_rest_snoc(ds.skip(1), d);
        assert(detail_list_rest(ds.push(d)) =~= detail_list_rest(ds) + seq![COMMA]
            + detail_obj(d));
    }
}

proof fn lemma_detail_list_snoc(ds: Seq<Seq<u8>>, d: Seq<u8>)
    ensures
        ds.len() == 0 ==> detail_list(ds.push(d)) == detail_obj(d),
        ds.len() > 0 ==> detail_list(ds.push(d)) == detail_list(ds) + seq![COMMA]
            + detail_obj(d),
{
    if ds.len() == 0 {
        assert(ds.push(d)[0] == d);
        assert(ds.push(d).skip(1) =~= Seq::<Seq<u8>>::empty());
        assert(detail_list(ds.push(d)) =~= detail_obj(d));
    } else {
        assert(ds.push(d).skip(1) =~= ds.skip(1).push(d));
        lemma_detail_list_rest_snoc(ds.skip(1), d);
        assert(detail_list(ds.push(d)) =~= detail_list(ds) + seq![COMMA] + detail_obj(d));
    }
}

/// Encode a list of registry errors as the JSON error-array payload.
pub fn encode_registry_errors(errs: &RegistryErrors) -> (r: Vec<u8>)
    ensures
        r@ == encoded_errors(errs.details()),
{
    let mut out: Vec<u8> = Vec::new();
    push_errors_open(&mut out);
    let n = errs.errors.len();
    let mut k: usize = 0;
    proof {
        assert(errs.details().take(0) =~= Seq::<Seq<u8>>::empty());
        assert(out@ =~= errors_open() + detail_list(errs.details().take(0)));
    }
    while k < n
        invariant
            k <= n,
            n == errs.errors.len(),
            out@ == errors_open() + detail_list(errs.details().take(k as int)),
        decreases n - k,
    {
        if k > 0 {
            out.push(COMMA);
        }
        push_detail_open(&mut out);
        push_escaped(&mut out, &errs.errors[k].detail);
        out.push(QUOTE);
        out.push(RBRACE);
        proof {
            let pre = errs.details().take(k as int);
            let d = errs.errors@[k as int].detail@;
            lemma_detail_list_snoc(pre, d);
            assert(errs.details().take(k + 1) =~= pre.push(d));
            if k > 0 {
                assert(out@ =~= errors_open() + (detail_list(pre) + seq![COMMA] + detail_obj(
                    d,
                )));
            } else {
                assert(out@ =~= errors_open() + detail_obj(d));
            }
            assert(out@ =~= errors_open() + detail_list(errs.details().take(k + 1)));
        }
        k += 1;
    }
    out.push(RBRACKET);
    out.push(RBRACE);
    proof {
        assert(errs.details().take(n as int) =~= errs.details());
        assert(out@ =~= encoded_errors(errs.details()));
    }
    out
}

/// Build the hand-built fallback payload for a cause string, writing the
/// cause verbatim (this last resort performs no escaping, so a cause
/// holding quotes or backslashes yields a payload the decoder refuses).
pub fn encode_fallback_error(err: &Vec<u8>) -> (r: Vec<u8>)
    ensures
        r@ == fallback_encoded(err@),
{
    let mut out: Vec<u8> = Vec::new();
    push_errors_open(&mut out);
    push_gap(&mut out);
    push_detail_open(&mut out);
    push_fallback_msg(&mut out);
    out.push(QUOTE);
    out.push(RBRACE);
    out.push(COMMA);
    push_gap(&mut out);
    push_detail_open(&mut out);
    push_raw(&mut out, err);
    out.push(QUOTE);
    out.push(RBRACE);
    out.push(10);
    out.push(32);
    out.push(32);
    out.push(RBRACKET);
    out.push(RBRACE);
    proof {
        lemma_fallback_msg_plain();
        lemma_escaped_plain(fallback_msg());
        assert(out@ =~= fallback_head() + err@ + fallback_tail());
    }
    out
}

/// Whether `{"errors":[` stands at position `i` of `s`.
fn errors_open_at(s: &Vec<u8>, i: usize) -> (r: bool)
    ensures
        r == has_prefix_at(s@, i as int, errors_open()),
{
    if s.len() < 11 || i > s.len() - 11 {
        proof {
            assert(!has_prefix_at(s@, i as int, errors_open()));
        }
        return false;
    }
    let r = s[i] == 123 && s[i + 1] == 34 && s[i + 2] == 101 && s[i + 3] == 114 && s[i + 4]
        == 114 && s[i + 5] == 111 && s[i + 6] == 114 && s[i + 7] == 115 && s[i + 8] == 34 && s[i
        + 9] == 58 && s[i + 10] == 91;
    proof {
        let p = errors_open();
        if r {
            assert(s@.subrange(i as int, i + 11) =~= p);
        }
        if has_prefix_at(s@, i as int, p) {
            assert forall|k: int| 0 <= k < 11 implies s@[i + k] == p[k] by {
                lemma_prefix_index(s@, i as int, p, k);
            }
            assert(r);
        }
    }
    r
}

/// Whether `{"detail":"` stands at position `i` of `s`.
fn detail_open_at(s: &Vec<u8>, i: usize) -> (r: bool)
    ensures
        r == has_prefix_at(s@, i as int, detail_open()),
{
    if s.len() < 11 || i > s.len() - 11 {
        proof {
            assert(!has_prefix_at(s@, i as int, detail_open()));
        }
        return false;
    }
    let r = s[i] == 123 && s[i + 1] == 34 && s[i + 2] == 100 && s[i + 3] == 101 && s[i + 4]
        == 116 && s[i + 5] == 97 && s[i + 6] == 105 && s[i + 7] == 108 && s[i + 8] == 34 && s[i
        + 9] == 58 && s[i + 10] == 34;
    proof {
        let p = detail_open();
        if r {
            assert(s@.subrange(i as int, i + 11) =~= p);
        }
        if has_prefix_at(s@, i as int, p) {
            assert forall|k: int| 0 <= k < 11 implies s@[i + k] == p[k] by {
                lemma_prefix_index(s@, i as int, p, k);
            }
            assert(r);
        }
    }
    r
}

/// Skip whitespace from position `i`.
fn exec_ws_end(s: &Vec<u8>, i: usize) -> (r: usize)
    requires
        i <= s.len(),
    ensures
        r as int == ws_end(s@, i as int),
        i <= r <= s.len(),
{
    let mut j = i;
    while j < s.len() && (s[j] == 32 || s[j] == 10 || s[j] == 9 || s[j] == 13)
        invariant
            i <= j <= s.len(),
            ws_end(s@, i as int) == ws_end(s@, j as int),
        decreases s.len() - j,
    {
        j += 1;
    }
    j
}

/// Parse one error object from position `i`.
fn exec_parse_detail(s: &Vec<u8>, i: usize) -> (r: Option<(Vec<u8>, usize)>)
    requires
        i <= s.len(),
    ensures
        match r {
            Some(p) => parse_detail(s@, i as int) == Some((p.0@, p.1 as int)) && i < p.1
                <= s.len(),
            None => parse_detail(s@, i as int) is None,
        },
{
    if !detail_open_at(s, i) {
        return None;
    }
    match exec_strbody(s, i + 11) {
        Some((d, j)) => {
            proof {
                lemma_parse_strbody_bounds(s@, i + 11);
            }
            if j < s.len() && s[j] == RBRACE {
                Some((d, j + 1))
            } else {
                None
            }
        },
        None => None,
    }
}

/// Parse the comma-separated continuation of the error list from
/// position `i`, as a list of errors.
fn exec_details_rest(s: &Vec<u8>, i: usize) -> (r: Option<(Vec<RegistryError>, usize)>)
    requires
        i <= s.len(),
    ensures
        match r {
            Some(p) => parse_details_rest(s@, i as int) == Some(
                (p.0@.map(|n: int, e: RegistryError| e.detail@), p.1 as int),
            ) && p.1 <= s.len(),
            None => parse_details_rest(s@, i as int) is None,
        },
    decreases s.len() - i,
{
    let k = exec_ws_end(s, i);
    if k < s.len() && s[k] == COMMA {
        let m = exec_ws_end(s, k + 1);
        match exec_parse_detail(s, m) {
            Some((d, j)) => {
                match exec_details_rest(s, j) {
                    Some((mut ds, e)) => {
                        let ghost dsold = ds@;
                        ds.insert(0, RegistryError { detail: d });
                        proof {
                            assert(ds@.map(|n: int, er: RegistryError| er.detail@) =~= seq![d@]
                                + dsold.map(|n: int, er: RegistryError| er.detail@));
                        }
                        Some((ds, e))
                    },
                    None => None,
                }
            },
            None => None,
        }
    } else {
        let empty: Vec<RegistryError> = Vec::new();
        proof {
            assert(empty@.map(|n: int, er: RegistryError| er.detail@) =~= Seq::<Seq<u8>>::empty());
        }
        Some((empty, k))
    }
}

/// Decode a response payload back into the registry errors it carries;
/// `None` if the bytes are not a well-formed error array.
pub fn decode_registry_errors(s: &Vec<u8>) -> (r: Option<RegistryErrors>)
    ensures
        (r is Some) == (parse_registry_errors(s@) is Some),
        r is Some ==> r.unwrap().details() == parse_registry_errors(s@).unwrap(),
{
    if !errors_open_at(s, 0) {
        return None;
    }
    let k = exec_ws_end(s, 11);
    if s.len() >= 2 && k == s.len() - 2 && s[k] == RBRACKET && s[k + 1] == RBRACE {
        let empty: Vec<RegistryError> = Vec::new();
        let out = RegistryErrors { errors: empty };
        proof {
            assert(out.details() =~= Seq::<Seq<u8>>::empty());
        }
        return Some(out);
    }
    match exec_parse_detail(s, k) {
        Some((d, j)) => match exec_details_rest(s, j) {
            Some((mut ds, e)) => {
                if s.len() >= 2 && e == s.len() - 2 && s[e] == RBRACKET && s[e + 1] == RBRACE {
                    let ghost dsold = ds@;
                    ds.insert(0, RegistryError { detail: d });
                    let out = RegistryErrors { errors: ds };
                    proof {
                        assert(out.details() =~= seq![d@] + dsold.map(
                            |n: int, er: RegistryError| er.detail@,
                        ));
                    }
                    Some(out)
                } else {
                    None
                }
            },
            None => None,
        },
        None => None,
    }
}

} // verus!
