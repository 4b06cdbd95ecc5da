//! The registry configuration file: its JSON content is derived once
//! from the server's bound address and persisted, and the previously
//! bound port can be recovered from it on a later startup so the
//! externally visible address stays stable.

use vstd::prelude::*;

use crate::json::has_prefix_at;
use crate::response::lemma_concat_prefix_at;
use crate::json::lemma_prefix_index;
use crate::json::push_raw;
use crate::json::COLON;
use crate::json::QUOTE;
use crate::json::RBRACE;
use crate::version::dec_value;
use crate::version::is_digit;
use crate::version::lemma_pow10_monotone;
use crate::version::pow10;

verus! {

/// `{"dl":"http://`
pub open spec fn cfg_head() -> Seq<u8> {
    seq![123u8, 34, 100, 108, 34, 58, 34, 104, 116, 116, 112, 58, 47, 47]
}

/// `/api/v1/crates/{crate}/{version}/download","api":"http://`
pub open spec fn cfg_mid() -> Seq<u8> {
    seq![
        47u8, 97, 112, 105, 47, 118, 49, 47, 99, 114, 97, 116, 101, 115, 47, 123, 99, 114, 97,
        116, 101, 125, 47, 123, 118, 101, 114, 115, 105, 111, 110, 125, 47, 100, 111, 119, 110,
        108, 111, 97, 100, 34, 44, 34, 97, 112, 105, 34, 58, 34, 104, 116, 116, 112, 58, 47, 47,
    ]
}

/// The configuration content for a bound address: a download URL
/// template and the API base URL, both naming the address.
pub open spec fn config_json(addr: Seq<u8>) -> Seq<u8> {
    cfg_head() + addr + cfg_mid() + addr + seq![QUOTE, RBRACE]
}

/// Build the configuration content for an address (as `host:port` text).
#[verifier::rlimit(100)]
pub fn encode_config(addr: &Vec<u8>) -> (r: Vec<u8>)
    ensures
        r@ == config_json(addr@),
{
    let mut out: Vec<u8> = Vec::new();
    out.push(123);
    out.push(34);
    out.push(100);
    out.push(108);
    out.push(34);
    out.push(58);
    out.push(34);
    out.push(104);
    out.push(116);
    out.push(116);
    out.push(112);
    out.push(58);
    out.push(47);
    out.push(47);
    proof {
        assert(out@ =~= cfg_head());
    }
    push_raw(&mut out, addr);
    let ghost before_mid = out@;
    out.push(47);
    out.push(97);
    out.push(112);
    out.push(105);
    out.push(47);
    out.push(118);
    out.push(49);
    out.push(47);
    out.push(99);
    out.push(114);
    out.push(97);
    out.push(116);
    out.push(101);
    out.push(115);
    out.push(47);
    out.push(123);
    out.push(99);
    out.push(114);
    out.push(97);
    out.push(116);
    out.push(101);
    out.push(125);
    out.push(47);
    out.push(123);
    out.push(118);
    out.push(101);
    out.push(114);
    out.push(115);
    out.push(105);
    out.push(111);
    out.push(110);
    out.push(125);
    out.push(47);
    out.push(100);
    out.push(111);
    out.push(119);
    out.push(110);
    out.push(108);
    out.push(111);
    out.push(97);
    out.push(100);
    out.push(34);
    out.push(44);
    out.push(34);
    out.push(97);
    out.push(112);
    out.push(105);
    out.push(34);
    out.push(58);
    out.push(34);
    out.push(104);
    out.push(116);
    out.push(116);
    out.push(112);
    out.push(58);
    out.push(47);
    out.push(47);
    proof {
        assert(out@ =~= before_mid + cfg_mid());
    }
    push_raw(&mut out, addr);
    out.push(QUOTE);
    out.push(RBRACE);
    proof {
        assert(out@ =~= config_json(addr@));
    }
    out
}

/// The start of the run of decimal digits ending just before `i`.
pub open spec fn digits_back(s: Seq<u8>, i: int) -> int
    decreases i when 0 <= i <= s.len()
{
    if i > 0 && is_digit(s[i - 1]) {
        digits_back(s, i - 1)
    } else {
        i
    }
}

pub proof fn lemma_digits_back_run(s: Seq<u8>, b: int, e: int)
    requires
        0 < b <= e <= s.len(),
        forall|k: int| b <= k < e ==> is_digit(#[trigger] s[k]),
        !is_digit(s[b - 1]),
    ensures
        digits_back(s, e) == b,
    decreases e - b,
{
    if b < e {
        lemma_digits_back_run(s, b, e - 1);
    }
}

/// Recover the bound port from configuration content: the digits between
/// the final colon and the closing quote of the API base URL.
pub open spec fn read_port(s: Seq<u8>) -> Option<int> {
    if s.len() >= 2 && s[s.len() - 1] == RBRACE && s[s.len() - 2] == QUOTE {
        let e = s.len() - 2;
        let b = digits_back(s, e);
        if 0 < b < e && e - b <= 5 && s[b - 1] == COLON && dec_value(s.subrange(b, e)) <= 65535 {
            Some(dec_value(s.subrange(b, e)))
        } else {
            None
        }
    } else {
        None
    }
}

/// Best-effort recovery of a previously bound port from configuration
/// content; any malformed content yields nothing and the caller falls
/// back to a fresh ephemeral port.
pub fn try_read_bound_port(config: &Vec<u8>) -> (r: Option<u16>)
    ensures
        match r {
            Some(p) => read_port(config@) == Some(p as int),
            None => read_port(config@) is None,
        },
{
    let n = config.len();
    if n < 2 || config[n - 1] != RBRACE || config[n - 2] != QUOTE {
        return None;
    }
    let e = n - 2;
    let mut b = e;
    while b > 0 && config[b - 1] >= 48 && config[b - 1] <= 57
        invariant
            0 <= b <= e <= config.len(),
            digits_back(config@, e as int) == digits_back(config@, b as int),
            forall|k: int| b <= k < e ==> is_digit(#[trigger] config@[k]),
        decreases b,
    {
        b -= 1;
    }
    proof {
        assert(digits_back(config@, b as int) == b);
    }
    if !(0 < b && b < e && e - b <= 5) {
        return None;
    }
    if config[b - 1] != COLON {
        return None;
    }
    let mut v: u32 = 0;
    let mut k = b;
    proof {
        assert(config@.subrange(b as int, b as int) =~= Seq::<u8>::empty());
    }
    while k < e
        invariant
            b <= k <= e <= config.len(),
            e - b <= 5,
            v == dec_value(config@.subrange(b as int, k as int)),
            forall|m: int| b <= m < e ==> is_digit(#[trigger] config@[m]),
            v < pow10((k - b) as nat),
        decreases e - k,
    {
        proof {
            lemma_pow10_monotone((k + 1 - b) as nat, 5);
            reveal_with_fuel(pow10, 6);
            assert(config@.subrange(b as int, k + 1).take(k - b) =~= config@.subrange(
                b as int,
                k as int,
            ));
            assert(config@.subrange(b as int, k + 1)[k - b] == config@[k as int]);
        }
        v = v * 10 + ((config[k] - 48) as u32);
        k += 1;
    }
    proof {
        assert(config@.subrange(b as int, e as int) =~= config@.subrange(b as int, k as int));
    }
    if v > 65535 {
        return None;
    }
    Some(v as u16)
}

/// A bound address written into a fresh configuration can always be
/// recovered from it: reading the port back from the configuration for
/// `host:port` yields that port. This is what lets a restart against the
/// same root reuse the previously bound port.
pub proof fn lemma_port_recovery(host: Seq<u8>, digits: Seq<u8>)
    requires
        1 <= digits.len() <= 5,
        forall|k: int| 0 <= k < digits.len() ==> is_digit(#[trigger] digits[k]),
        dec_value(digits) <= 65535,
    ensures
        read_port(config_json(host + seq![COLON] + digits)) == Some(dec_value(digits)),
{
    let addr = host + seq![COLON] + digits;
    let s = config_json(addr);
    let a = cfg_head().len() + addr.len() + cfg_mid().len() + host.len() as int;
    assert(s =~= (cfg_head() + addr + cfg_mid() + host) + (seq![COLON] + (digits + seq![
        QUOTE,
        RBRACE,
    ])));
    assert(s.subrange(0, s.len() as int) =~= s);
    assert(has_prefix_at(s, 0, s));
    lemma_concat_prefix_at(
        s,
        0,
        cfg_head() + addr + cfg_mid() + host,
        seq![COLON] + (digits + seq![QUOTE, RBRACE]),
    );
    lemma_concat_prefix_at(s, a, seq![COLON], digits + seq![QUOTE, RBRACE]);
    lemma_concat_prefix_at(s, a + 1, digits, seq![QUOTE, RBRACE]);
    lemma_prefix_index(s, a, seq![COLON], 0);
    lemma_prefix_index(s, a + 1 + digits.len(), seq![QUOTE, RBRACE], 0);
    lemma_prefix_index(s, a + 1 + digits.len(), seq![QUOTE, RBRACE], 1);
    assert(s[a] == COLON);
    let e = s.len() - 2;
    assert(e == a + 1 + digits.len());
    assert(s[e] == QUOTE && s[e + 1] == RBRACE);
    assert(forall|k: int| a + 1 <= k < e ==> is_digit(#[trigger] s[k])) by {
        assert forall|k: int| a + 1 <= k < e implies is_digit(#[trigger] s[k]) by {
            lemma_prefix_index(s, a + 1, digits, k - (a + 1));
        }
    }
    assert(!is_digit(COLON));
    lemma_digits_back_run(s, a + 1, e);
    assert(s.subrange(a + 1, e) =~= digits);
}


/// Which port to bind first: a port recovered from the configuration is
/// used only when the caller asked for an ephemeral port.
pub fn choose_bind_port(requested: u16, recovered: Option<u16>) -> (r: u16)
    ensures
        requested == 0 && recovered is Some ==> r == recovered.unwrap(),
        requested != 0 || recovered is None ==> r == requested,
{
    if requested == 0 {
        match recovered {
            Some(p) => p,
            None => 0,
        }
    } else {
        requested
    }
}

/// After a failed bind: fall back to the originally requested port if it
/// was not the one just tried, else give up.
pub fn bind_fallback_port(tried: u16, requested: u16) -> (r: Option<u16>)
    ensures
        tried != requested ==> r == Some(requested),
        tried == requested ==> r is None,
{
    if tried != requested {
        Some(requested)
    } else {
        None
    }
}

} // verus!
