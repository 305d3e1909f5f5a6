use vstd::prelude::*;

use crate::text::{
    all_dec_digits, dec_digit_val, dec_val, is_dec_digit, lemma_dec_val_nonneg,
    lemma_dec_val_small, parts_of, split_on, split_range,
};
use crate::CidrError;

verus! {

// ---------------------------------------------------------------------------
// The dotted-decimal grammar
// ---------------------------------------------------------------------------

/// One octet of a dotted-decimal address: one to three decimal digits,
/// no leading zero, value at most 255.
pub open spec fn valid_octet(t: Seq<char>) -> bool {
    &&& 1 <= t.len() <= 3
    &&& all_dec_digits(t)
    &&& (t.len() > 1 ==> t[0] != '0')
    &&& dec_val(t) <= 255
}

/// A dotted-decimal IPv4 address: exactly four octets separated by dots.
pub open spec fn valid_ipv4_seq(s: Seq<char>) -> bool {
    let ps = split_on(s, '.');
    &&& ps.len() == 4
    &&& valid_octet(ps[0])
    &&& valid_octet(ps[1])
    &&& valid_octet(ps[2])
    &&& valid_octet(ps[3])
}

/// The 32-bit value a valid dotted-decimal address denotes,
/// first octet most significant.
pub open spec fn ipv4_val(s: Seq<char>) -> int {
    let ps = split_on(s, '.');
    dec_val(ps[0]) * 0x1000000 + dec_val(ps[1]) * 0x10000 + dec_val(ps[2]) * 0x100 + dec_val(ps[3])
}

pub proof fn lemma_ipv4_val_bound(s: Seq<char>)
    requires
        valid_ipv4_seq(s),
    ensures
        0 <= ipv4_val(s) < 0x100000000,
{
    let ps = split_on(s, '.');
    lemma_dec_val_nonneg(ps[0]);
    lemma_dec_val_nonneg(ps[1]);
    lemma_dec_val_nonneg(ps[2]);
    lemma_dec_val_nonneg(ps[3]);
}

// ---------------------------------------------------------------------------
// Parsing
// ---------------------------------------------------------------------------

/// Decimal value of `c`, or `None` if `c` is not a decimal digit.
pub fn dec_digit_of(c: char) -> (r: Option<u32>)
    ensures
        r is Some <==> is_dec_digit(c),
        r is Some ==> r.unwrap() == dec_digit_val(c),
{
    let u = c as u32;
    if 48 <= u && u <= 57 {
        Some(u - 48)
    } else {
        None
    }
}

/// Parses the character range `[a, b)` of `s` as one decimal octet.
pub fn parse_octet(s: &str, a: usize, b: usize) -> (r: Option<u8>)
    requires
        a <= b && b <= s@.len(),
    ensures
        ({
            let t = s@.subrange(a as int, b as int);
            &&& r is Some <==> valid_octet(t)
            &&& r is Some ==> r.unwrap() == dec_val(t)
        }),
{
    let ghost t = s@.subrange(a as int, b as int);
    let len = b - a;
    if len < 1 || len > 3 {
        return None;
    }
    let mut acc: u32 = 0;
    let mut j: usize = 0;
    while j < len
        invariant
            a <= b <= s@.len(),
            len == b - a,
            1 <= len <= 3,
            j <= len,
            t == s@.subrange(a as int, b as int),
            all_dec_digits(t.take(j as int)),
            acc == dec_val(t.take(j as int)),
            acc < 1000,
        decreases len - j,
    {
        let c = s.get_char(a + j);
        proof {
            assert(c == t[j as int]);
        }
        match dec_digit_of(c) {
            Some(d) => {
                proof {
                    assert(t.take(j + 1).drop_last() =~= t.take(j as int));
                    assert(t.take(j + 1).last() == t[j as int]);
                    assert(all_dec_digits(t.take(j + 1)));
                    lemma_dec_val_small(t.take(j + 1));
                }
                acc = acc * 10 + d;
            },
            None => {
                proof {
                    assert(!is_dec_digit(t[j as int]));
                }
                return None;
            },
        }
        j = j + 1;
    }
    proof {
        assert(t.take(len as int) =~= t);
    }
    if acc > 255 {
        return None;
    }
    if len > 1 && s.get_char(a) == '0' {
        proof {
            assert(t[0] == '0');
        }
        return None;
    }
    Some(acc as u8)
}

/// Parses the character range `[a, b)` of `s` as a dotted-decimal
/// IPv4 address.
pub fn parse_ipv4_range(s: &str, a: usize, b: usize) -> (r: Option<u32>)
    requires
        a <= b && b <= s@.len(),
    ensures
        ({
            let t = s@.subrange(a as int, b as int);
            &&& r is Some <==> valid_ipv4_seq(t)
            &&& r is Some ==> r.unwrap() == ipv4_val(t)
        }),
{
    let ghost t = s@.subrange(a as int, b as int);
    let parts = split_range(s, a, b, '.');
    let ghost ps = split_on(t, '.');
    if parts.len() != 4 {
        return None;
    }
    proof {
        assert(ps[0] == parts_of(s@, parts@)[0]);
        assert(ps[1] == parts_of(s@, parts@)[1]);
        assert(ps[2] == parts_of(s@, parts@)[2]);
        assert(ps[3] == parts_of(s@, parts@)[3]);
    }
    let (a0, b0) = (parts[0].0, parts[0].1);
    let (a1, b1) = (parts[1].0, parts[1].1);
    let (a2, b2) = (parts[2].0, parts[2].1);
    let (a3, b3) = (parts[3].0, parts[3].1);
    let o0 = match parse_octet(s, a0, b0) {
        Some(v) => v,
        None => {
            return None;
        },
    };
    let o1 = match parse_octet(s, a1, b1) {
        Some(v) => v,
        None => {
            return None;
        },
    };
    let o2 = match parse_octet(s, a2, b2) {
        Some(v) => v,
        None => {
            return None;
        },
    };
    let o3 = match parse_octet(s, a3, b3) {
        Some(v) => v,
        None => {
            return None;
        },
    };
    proof {
        lemma_dec_val_nonneg(ps[0]);
        lemma_dec_val_nonneg(ps[1]);
        lemma_dec_val_nonneg(ps[2]);
        lemma_dec_val_nonneg(ps[3]);
    }
    Some((o0 as u32) * 0x1000000 + (o1 as u32) * 0x10000 + (o2 as u32) * 0x100 + (o3 as u32))
}

/// Parses a textual IPv4 address into its 32-bit value; rejects any
/// string that is not a dotted-decimal address.
pub fn parse_ipv4_addr(s: &str) -> (r: Result<u32, CidrError>)
    ensures
        r is Ok <==> valid_ipv4_seq(s@),
        r is Ok ==> r.unwrap() == ipv4_val(s@),
        r is Err ==> r == Err::<u32, CidrError>(CidrError::InvalidAddress),
{
    proof {
        assert(s@.subrange(0, s@.len() as int) =~= s@);
    }
    let n = s.unicode_len();
    match parse_ipv4_range(s, 0, n) {
        Some(v) => Ok(v),
        None => Err(CidrError::InvalidAddress),
    }
}

} // verus!
