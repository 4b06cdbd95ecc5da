//! Byte-level primitives for the registry's JSON wire texts: string
//! escaping, literal matching, whitespace skipping, and the quoted-string
//! body parser, together with the lemmas that relate encoding to parsing.

use vstd::prelude::*;

verus! {

pub const QUOTE: u8 = 34;
pub const BACKSLASH: u8 = 92;
pub const LBRACE: u8 = 123;
pub const RBRACE: u8 = 125;
pub const LBRACKET: u8 = 91;
pub const RBRACKET: u8 = 93;
pub const COMMA: u8 = 44;
pub const COLON: u8 = 58;

/// How a single byte appears inside a quoted JSON string: quotes and
/// backslashes are escaped with a backslash, everything else is literal.
pub open spec fn escape_byte(b: u8) -> Seq<u8> {
    if b == QUOTE {
        seq![BACKSLASH, QUOTE]
    } else if b == BACKSLASH {
        seq![BACKSLASH, BACKSLASH]
    } else {
        seq![b]
    }
}

/// A byte string as it appears between the quotes of a JSON string.
pub open spec fn escaped(s: Seq<u8>) -> Seq<u8>
    decreases s.len(),
{
    if s.len() == 0 {
        Seq::empty()
    } else {
        escape_byte(s[0]) + escaped(s.skip(1))
    }
}

pub proof fn lemma_escaped_push(s: Seq<u8>, b: u8)
    ensures
        escaped(s.push(b)) == escaped(s) + escape_byte(b),
    decreases s.len(),
{
    if s.len() == 0 {
        assert(s.push(b)[0] == b);
        assert(escaped(Seq::<u8>::empty()) =~= Seq::<u8>::empty());
        assert(s.push(b).skip(1) =~= Seq::<u8>::empty());
        assert(escaped(s.push(b)) =~= escape_byte(b));
        assert(escaped(s) + escape_byte(b) =~= escape_byte(b));
    } else {
        assert(s.push(b).skip(1) =~= s.skip(1).push(b));
        lemma_escaped_push(s.skip(1), b);
        assert(escaped(s.push(b)) =~= escaped(s) + escape_byte(b));
    }
}

/// A byte that needs no escaping and does not close the string.
pub open spec fn plain_byte(b: u8) -> bool {
    b != QUOTE && b != BACKSLASH
}

pub open spec fn all_plain(s: Seq<u8>) -> bool {
    forall|i: int| 0 <= i < s.len() ==> plain_byte(s[i])
}

pub proof fn lemma_escaped_plain(s: Seq<u8>)
    requires
        all_plain(s),
    ensures
        escaped(s) == s,
    decreases s.len(),
{
    if s.len() == 0 {
        assert(escaped(s) =~= s);
    } else {
        lemma_escaped_plain(s.skip(1));
        assert(escaped(s) =~= s);
    }
}

/// Whitespace accepted between the tokens of a response payload.
pub open spec fn is_ws(b: u8) -> bool {
    b == 32 || b == 10 || b == 9 || b == 13
}

/// The first position at or after `i` holding a non-whitespace byte (or
/// the end of the input).
pub open spec fn ws_end(s: Seq<u8>, i: int) -> int
    decreases s.len() - i when 0 <= i <= s.len()
{
    if i < s.len() && is_ws(s[i]) {
        ws_end(s, i + 1)
    } else {
        i
    }
}

pub proof fn lemma_ws_end_bounds(s: Seq<u8>, i: int)
    requires
        0 <= i <= s.len(),
    ensures
        i <= ws_end(s, i) <= s.len(),
    decreases s.len() - i,
{
    if i < s.len() && is_ws(s[i]) {
        lemma_ws_end_bounds(s, i + 1);
    }
}

/// The bytes `p` stand verbatim in `s` at position `i`.
pub open spec fn has_prefix_at(s: Seq<u8>, i: int, p: Seq<u8>) -> bool {
    0 <= i && i + p.len() <= s.len() && s.subrange(i, i + p.len()) == p
}

/// Parse the body of a quoted string starting just after the opening
/// quote at position `i`: unescape until the closing quote, and return
/// the content together with the position just after that quote.
pub open spec fn parse_strbody(s: Seq<u8>, i: int) -> Option<(Seq<u8>, int)>
    decreases s.len() - i when 0 <= i <= s.len()
{
    if i >= s.len() {
        None
    } else if s[i] == QUOTE {
        Some((Seq::empty(), i + 1))
    } else if s[i] == BACKSLASH {
        if i + 1 < s.len() && (s[i + 1] == QUOTE || s[i + 1] == BACKSLASH) {
            match parse_strbody(s, i + 2) {
                Some((t, j)) => Some((seq![s[i + 1]] + t, j)),
                None => None,
            }
        } else {
            None
        }
    } else {
        match parse_strbody(s, i + 1) {
            Some((t, j)) => Some((seq![s[i]] + t, j)),
            None => None,
        }
    }
}

pub proof fn lemma_parse_strbody_bounds(s: Seq<u8>, i: int)
    requires
        0 <= i <= s.len(),
        parse_strbody(s, i) is Some,
    ensures
        i < parse_strbody(s, i).unwrap().1 <= s.len(),
    decreases s.len() - i,
{
    if i >= s.len() {
    } else if s[i] == QUOTE {
    } else if s[i] == BACKSLASH {
        lemma_parse_strbody_bounds(s, i + 2);
    } else {
        lemma_parse_strbody_bounds(s, i + 1);
    }
}

/// Each byte of a prefix standing at position `i` is a byte of `s`.
pub proof fn lemma_prefix_index(s: Seq<u8>, i: int, p: Seq<u8>, k: int)
    requires
        has_prefix_at(s, i, p),
        0 <= k < p.len(),
    ensures
        s[i + k] == p[k],
{
    assert(p[k] == s.subrange(i, i + p.len() as int)[k]);
}

/// A prefix standing at `i` carries each of its own sub-ranges with it.
pub proof fn lemma_prefix_sub(s: Seq<u8>, i: int, p: Seq<u8>, lo: int, hi: int)
    requires
        has_prefix_at(s, i, p),
        0 <= lo <= hi <= p.len(),
    ensures
        has_prefix_at(s, i + lo, p.subrange(lo, hi)),
{
    let q = p.subrange(lo, hi);
    assert(s.subrange(i + lo, i + lo + q.len() as int) =~= q) by {
        assert forall|k: int| 0 <= k < q.len() implies s.subrange(
            i + lo,
            i + lo + q.len() as int,
        )[k] == q[k] by {
            lemma_prefix_index(s, i, p, lo + k);
        }
    }
}

/// Parsing inverts escaping: wherever `escaped(d)` followed by a closing
/// quote stands in `s`, the string-body parser recovers exactly `d`.
pub proof fn lemma_parse_strbody_of_escaped(s: Seq<u8>, i: int, d: Seq<u8>)
    requires
        0 <= i,
        has_prefix_at(s, i, escaped(d).push(QUOTE)),
    ensures
        parse_strbody(s, i) == Some((d, i + escaped(d).len() + 1)),
    decreases d.len(),
{
    let p = escaped(d).push(QUOTE);
    if d.len() == 0 {
        assert(escaped(d) =~= Seq::<u8>::empty());
        lemma_prefix_index(s, i, p, 0);
        assert(s[i] == QUOTE);
    } else {
        let b = d[0];
        let t = d.skip(1);
        assert(escaped(d) =~= escape_byte(b) + escaped(t));
        let eb = escape_byte(b);
        let shift = eb.len() as int;
        assert(p.subrange(shift, p.len() as int) =~= escaped(t).push(QUOTE));
        lemma_prefix_sub(s, i, p, shift, p.len() as int);
        lemma_parse_strbody_of_escaped(s, i + shift, t);
        assert(parse_strbody(s, i + shift) == Some((t, i + escaped(d).len() + 1)));
        if b == QUOTE || b == BACKSLASH {
            lemma_prefix_index(s, i, p, 0);
            lemma_prefix_index(s, i, p, 1);
            assert(s[i] == BACKSLASH && s[i + 1] == b);
            assert(parse_strbody(s, i) == Some((seq![b] + t, i + escaped(d).len() + 1)));
            assert(seq![b] + t =~= d);
        } else {
            lemma_prefix_index(s, i, p, 0);
            assert(s[i] == b);
            assert(parse_strbody(s, i) == Some((seq![b] + t, i + escaped(d).len() + 1)));
            assert(seq![b] + t =~= d);
        }
    }
}

/// Append all of `src` to `out`, verbatim.
pub fn push_raw(out: &mut Vec<u8>, src: &Vec<u8>)
    ensures
        final(out)@ == old(out)@ + src@,
{
    let mut k: usize = 0;
    while k < src.len()
        invariant
            k <= src.len(),
            out@ == old(out)@ + src@.take(k as int),
        decreases src.len() - k,
    {
        out.push(src[k]);
        proof {
            assert(src@.take(k + 1) =~= src@.take(k as int).push(src@[k as int]));
            assert(out@ =~= old(out)@ + src@.take(k + 1));
        }
        k += 1;
    }
    proof {
        assert(src@.take(src@.len() as int) =~= src@);
    }
}

/// Append the escaped form of `d` to `out`.
pub fn push_escaped(out: &mut Vec<u8>, d: &Vec<u8>)
    ensures
        final(out)@ == old(out)@ + escaped(d@),
{
    let mut k: usize = 0;
    proof {
        assert(escaped(d@.take(0)) =~= Seq::<u8>::empty());
        assert(out@ =~= old(out)@ + escaped(d@.take(0)));
    }
    while k < d.len()
        invariant
            k <= d.len(),
            out@ == old(out)@ + escaped(d@.take(k as int)),
        decreases d.len() - k,
    {
        let b = d[k];
        if b == QUOTE || b == BACKSLASH {
            out.push(BACKSLASH);
            out.push(b);
        } else {
            out.push(b);
        }
        proof {
            lemma_escaped_push(d@.take(k as int), b);
            assert(d@.take(k + 1) =~= d@.take(k as int).push(b));
            assert(out@ =~= old(out)@ + escaped(d@.take(k + 1)));
        }
        k += 1;
    }
    proof {
        assert(d@.take(d@.len() as int) =~= d@);
    }
}


/// Whether the bytes of `p` stand verbatim at position `i` of `s`.
pub fn bytes_at(s: &Vec<u8>, i: usize, p: &Vec<u8>) -> (r: bool)
    ensures
        r == has_prefix_at(s@, i as int, p@),
{
    if p.len() > s.len() || i > s.len() - p.len() {
        proof {
            assert(!has_prefix_at(s@, i as int, p@));
        }
        return false;
    }
    let mut k: usize = 0;
    while k < p.len()
        invariant
            k <= p.len(),
            i + p.len() <= s.len(),
            forall|m: int| 0 <= m < k ==> s@[i + m] == p@[m],
        decreases p.len() - k,
    {
        if s[i + k] != p[k] {
            proof {
                if has_prefix_at(s@, i as int, p@) {
                    lemma_prefix_index(s@, i as int, p@, k as int);
                }
            }
            return false;
        }
        k += 1;
    }
    proof {
        assert(s@.subrange(i as int, i + p@.len() as int) =~= p@);
    }
    true
}
/// Parse a quoted string body, unescaping, from position `i`.
pub fn exec_strbody(s: &Vec<u8>, i: usize) -> (r: Option<(Vec<u8>, usize)>)
    requires
        i <= s.len(),
    ensures
        match r {
            Some(p) => parse_strbody(s@, i as int) == Some((p.0@, p.1 as int)) && p.1
                <= s.len(),
            None => parse_strbody(s@, i as int) is None,
        },
    decreases s.len() - i,
{
    if i >= s.len() {
        return None;
    }
    let b = s[i];
    if b == QUOTE {
        let empty: Vec<u8> = Vec::new();
        proof {
            assert(empty@ =~= Seq::<u8>::empty());
        }
        Some((empty, i + 1))
    } else if b == BACKSLASH {
        if i + 1 < s.len() && (s[i + 1] == QUOTE || s[i + 1] == BACKSLASH) {
            match exec_strbody(s, i + 2) {
                Some((mut t, j)) => {
                    let ghost told = t@;
                    t.insert(0, s[i + 1]);
                    proof {
                        assert(t@ =~= seq![s@[i + 1]] + told);
                    }
                    Some((t, j))
                },
                None => None,
            }
        } else {
            None
        }
    } else {
        match exec_strbody(s, i + 1) {
            Some((mut t, j)) => {
                let ghost told = t@;
                t.insert(0, b);
                proof {
                    assert(t@ =~= seq![s@[i as int]] + told);
                }
                Some((t, j))
            },
            None => None,
        }
    }
}

} // verus!
