use vstd::prelude::*;

use vstd::arithmetic::mul::lemma_mul_inequality;
use vstd::arithmetic::power2::{
    lemma2_to64, lemma2_to64_rest, lemma_pow2_adds, lemma_pow2_strictly_increases, pow2,
};

use crate::ipv4::{lemma_ipv4_val_bound, ipv4_val, parse_ipv4_range, valid_ipv4_seq};
use crate::text::{
    all_hex_digits, hex_digit_val, hex_val, is_hex_digit, lemma_hex_val_small, lemma_split_no_sep,
    parts_of, split_on, split_range,
};
use crate::CidrError;

verus! {

// ---------------------------------------------------------------------------
// The colon-hexadecimal grammar
// ---------------------------------------------------------------------------

/// One group of a colon-hexadecimal address: one to four hex digits.
pub open spec fn valid_hex_group(t: Seq<char>) -> bool {
    1 <= t.len() <= 4 && all_hex_digits(t)
}

pub open spec fn all_hex_groups(ps: Seq<Seq<char>>) -> bool {
    forall|i: int| 0 <= i < ps.len() ==> valid_hex_group(#[trigger] ps[i])
}

/// Groups filling the low end of an address: hex groups, except that
/// the last may be an embedded dotted-decimal IPv4 address.
pub open spec fn valid_tail_groups(ps: Seq<Seq<char>>) -> bool {
    ps.len() == 0 || {
        &&& all_hex_groups(ps.drop_last())
        &&& (valid_hex_group(ps.last()) || valid_ipv4_seq(ps.last()))
    }
}

/// A hex group fills one 16-bit unit, an embedded IPv4 address two.
pub open spec fn tail_units(ps: Seq<Seq<char>>) -> int {
    if ps.len() == 0 {
        0
    } else if valid_ipv4_seq(ps.last()) {
        ps.len() as int + 1
    } else {
        ps.len() as int
    }
}

pub open spec fn group_val(t: Seq<char>) -> int {
    if valid_ipv4_seq(t) {
        ipv4_val(t)
    } else {
        hex_val(t)
    }
}

pub open spec fn group_width(t: Seq<char>) -> int {
    if valid_ipv4_seq(t) {
        0x100000000
    } else {
        0x10000
    }
}

/// Value of low-end groups, last group least significant.
pub open spec fn tail_val(ps: Seq<Seq<char>>) -> int
    decreases ps.len(),
{
    if ps.len() == 0 {
        0
    } else {
        tail_val(ps.drop_last()) * group_width(ps.last()) + group_val(ps.last())
    }
}

/// Value of the groups before a compression, first group most
/// significant, not yet shifted into place.
pub open spec fn head_val(ps: Seq<Seq<char>>) -> int
    decreases ps.len(),
{
    if ps.len() == 0 {
        0
    } else {
        head_val(ps.drop_last()) * 0x10000 + hex_val(ps.last())
    }
}

/// Index of the first empty segment, or `ps.len()` if none is empty.
pub open spec fn first_empty(ps: Seq<Seq<char>>) -> int
    decreases ps.len(),
{
    if ps.len() == 0 {
        0
    } else if ps[0].len() == 0 {
        0
    } else {
        1 + first_empty(ps.skip(1))
    }
}

/// The value a colon-hexadecimal IPv6 address denotes, or `None` where
/// the segments do not form a valid address. `ps` are the segments of
/// the text between colons; a `::` compression shows up as an empty
/// segment (two at the very start or very end of the text).
pub open spec fn ipv6_of_parts(ps: Seq<Seq<char>>) -> Option<int> {
    let n = ps.len() as int;
    let i = first_empty(ps);
    if i == n {
        // no compression: exactly eight 16-bit units
        if valid_tail_groups(ps) && tail_units(ps) == 8 {
            Some(tail_val(ps))
        } else {
            None
        }
    } else if i == 0 && n >= 2 && ps[1].len() == 0 {
        // the text starts with "::"
        if n == 3 && ps[2].len() == 0 {
            Some(0)  // the address "::"
        } else {
            let tail = ps.skip(2);
            if tail.len() >= 1 && valid_tail_groups(tail) && tail_units(tail) <= 7 {
                Some(tail_val(tail))
            } else {
                None
            }
        }
    } else if 0 < i && i == n - 2 && ps[n - 1].len() == 0 {
        // the text ends with "::"
        let head = ps.take(i);
        if all_hex_groups(head) && i <= 7 {
            Some(head_val(head) * pow2((128 - 16 * i) as nat))
        } else {
            None
        }
    } else if 0 < i && i < n - 1 {
        // "::" between groups; any further empty segment fails the
        // group checks on the tail
        let head = ps.take(i);
        let tail = ps.skip(i + 1);
        if all_hex_groups(head) && valid_tail_groups(tail) && i + tail_units(tail) <= 7 {
            Some(head_val(head) * pow2((128 - 16 * i) as nat) + tail_val(tail))
        } else {
            None
        }
    } else {
        None
    }
}

/// A colon-hexadecimal IPv6 address.
pub open spec fn valid_ipv6_seq(s: Seq<char>) -> bool {
    ipv6_of_parts(split_on(s, ':')) is Some
}

/// The 128-bit value a valid colon-hexadecimal address denotes.
pub open spec fn ipv6_val(s: Seq<char>) -> int {
    ipv6_of_parts(split_on(s, ':'))->Some_0
}

// ---------------------------------------------------------------------------
// Bounds
// ---------------------------------------------------------------------------

/// A hex group has no dot in it, so it can never read as an embedded
/// IPv4 address.
pub proof fn lemma_hex_group_not_ipv4(t: Seq<char>)
    requires
        valid_hex_group(t),
    ensures
        !valid_ipv4_seq(t),
{
    assert forall|j: int| 0 <= j < t.len() implies t[j] != '.' by {
        assert(is_hex_digit(t[j]));
    }
    lemma_split_no_sep(t, '.');
    assert(split_on(t, '.').len() == 1);
}

pub proof fn lemma_first_empty_is(ps: Seq<Seq<char>>, k: int)
    requires
        0 <= k <= ps.len(),
        forall|j: int| 0 <= j < k ==> ps[j].len() > 0,
        k < ps.len() ==> ps[k].len() == 0,
    ensures
        first_empty(ps) == k,
    decreases ps.len(),
{
    if k == 0 {
        if ps.len() > 0 {
            assert(ps[0].len() == 0);
        }
    } else {
        assert(ps[0].len() > 0);
        let t = ps.skip(1);
        assert forall|j: int| 0 <= j < k - 1 implies t[j].len() > 0 by {
            assert(t[j] == ps[j + 1]);
        }
        assert(k - 1 < t.len() ==> t[k - 1] == ps[k]);
        lemma_first_empty_is(t, k - 1);
    }
}

/// The value of valid low-end groups fits in their units.
pub proof fn lemma_tail_val_bound(ps: Seq<Seq<char>>)
    requires
        valid_tail_groups(ps),
    ensures
        0 <= tail_val(ps) < pow2((16 * tail_units(ps)) as nat),
    decreases ps.len(),
{
    if ps.len() == 0 {
        assert(pow2(0) == 1) by {
            lemma2_to64();
        }
    } else {
        let d = ps.drop_last();
        let last = ps.last();
        assert forall|i: int| 0 <= i < d.len() implies valid_hex_group(#[trigger] d[i]) by {
            assert(d[i] == ps.drop_last()[i]);
        }
        if d.len() > 0 {
            assert(all_hex_groups(d.drop_last()));
            lemma_hex_group_not_ipv4(d.last());
        }
        lemma_tail_val_bound(d);
        if d.len() > 0 {
            lemma_hex_group_not_ipv4(d.last());
            assert(tail_units(d) == d.len());
        }
        let tu = d.len() as int;
        // tail_val(d) < pow2(16 * tu)
        if valid_ipv4_seq(last) {
            lemma_ipv4_val_bound(last);
            lemma_pow2_adds((16 * tu) as nat, 32);
            assert(pow2(32) == 0x100000000) by {
                lemma2_to64();
                lemma2_to64_rest();
            }
            lemma_mul_inequality(tail_val(d), pow2((16 * tu) as nat) - 1, 0x100000000);
            assert(tail_units(ps) == ps.len() + 1);
        } else {
            lemma_hex_val_small(last);
            lemma_pow2_adds((16 * tu) as nat, 16);
            assert(pow2(16) == 0x10000) by {
                lemma2_to64();
            }
            lemma_mul_inequality(tail_val(d), pow2((16 * tu) as nat) - 1, 0x10000);
            assert(tail_units(ps) == ps.len() as int);
        }
        assert(tail_val(d) >= 0);
        vstd::arithmetic::mul::lemma_mul_nonnegative(tail_val(d), group_width(last));
    }
}

/// The value of valid high-end groups fits in their units.
pub proof fn lemma_head_val_bound(ps: Seq<Seq<char>>)
    requires
        all_hex_groups(ps),
    ensures
        0 <= head_val(ps) < pow2((16 * ps.len()) as nat),
    decreases ps.len(),
{
    if ps.len() == 0 {
        assert(pow2(0) == 1) by {
            lemma2_to64();
        }
    } else {
        let d = ps.drop_last();
        assert forall|i: int| 0 <= i < d.len() implies valid_hex_group(#[trigger] d[i]) by {
            assert(d[i] == ps.drop_last()[i]);
        }
        lemma_head_val_bound(d);
        assert(valid_hex_group(ps.last()));
        lemma_hex_val_small(ps.last());
        lemma_pow2_adds((16 * d.len()) as nat, 16);
        assert(pow2(16) == 0x10000) by {
            lemma2_to64();
        }
        lemma_mul_inequality(head_val(d), pow2((16 * d.len()) as nat) - 1, 0x10000);
        vstd::arithmetic::mul::lemma_mul_nonnegative(head_val(d), 0x10000);
    }
}

/// `pow2(128)` is one past the largest `u128`.
pub proof fn lemma_pow2_128()
    ensures
        pow2(128) == 0x100000000000000000000000000000000,
        pow2(112) == 0x10000000000000000000000000000,
{
    lemma2_to64();
    lemma2_to64_rest();
    lemma_pow2_adds(64, 64);
    lemma_pow2_adds(64, 48);
}

/// A valid address text denotes a value of the family's bit width.
pub proof fn lemma_ipv6_val_bound(s: Seq<char>)
    requires
        valid_ipv6_seq(s),
    ensures
        0 <= ipv6_val(s) < pow2(128),
{
    let ps = split_on(s, ':');
    let n = ps.len() as int;
    let i = first_empty(ps);
    lemma_pow2_128();
    if i == n {
        lemma_tail_val_bound(ps);
    } else if i == 0 && n >= 2 && ps[1].len() == 0 {
        if !(n == 3 && ps[2].len() == 0) {
            let tail = ps.skip(2);
            lemma_tail_val_bound(tail);
            lemma_pow2_le((16 * tail_units(tail)) as nat, 128);
        }
    } else if 0 < i && i == n - 2 && ps[n - 1].len() == 0 {
        let head = ps.take(i);
        lemma_head_val_bound(head);
        vstd::arithmetic::power2::lemma_pow2_pos((128 - 16 * i) as nat);
        vstd::arithmetic::mul::lemma_mul_strict_inequality(
            head_val(head),
            pow2((16 * i) as nat) as int,
            pow2((128 - 16 * i) as nat) as int,
        );
        lemma_pow2_adds((16 * i) as nat, (128 - 16 * i) as nat);
        vstd::arithmetic::mul::lemma_mul_nonnegative(
            head_val(head),
            pow2((128 - 16 * i) as nat) as int,
        );
    } else {
        let head = ps.take(i);
        let tail = ps.skip(i + 1);
        lemma_head_val_bound(head);
        lemma_tail_val_bound(tail);
        vstd::arithmetic::power2::lemma_pow2_pos((128 - 16 * i) as nat);
        lemma_mul_inequality(
            head_val(head),
            pow2((16 * i) as nat) - 1,
            pow2((128 - 16 * i) as nat) as int,
        );
        vstd::arithmetic::mul::lemma_mul_is_distributive_sub_other_way(
            pow2((128 - 16 * i) as nat) as int,
            pow2((16 * i) as nat) as int,
            1,
        );
        lemma_pow2_adds((16 * i) as nat, (128 - 16 * i) as nat);
        lemma_pow2_le((16 * tail_units(tail)) as nat, (112 - 16 * i) as nat);
        lemma_pow2_strictly_increases((112 - 16 * i) as nat, (128 - 16 * i) as nat);
        vstd::arithmetic::mul::lemma_mul_nonnegative(
            head_val(head),
            pow2((128 - 16 * i) as nat) as int,
        );
    }
}

pub proof fn lemma_pow2_le(e1: nat, e2: nat)
    requires
        e1 <= e2,
    ensures
        pow2(e1) <= pow2(e2),
{
    if e1 < e2 {
        lemma_pow2_strictly_increases(e1, e2);
    }
}

// ---------------------------------------------------------------------------
// Parsing
// ---------------------------------------------------------------------------

/// Hexadecimal value of `c`, or `None` if `c` is not a hex digit.
pub fn hex_digit_of(c: char) -> (r: Option<u32>)
    ensures
        r is Some <==> is_hex_digit(c),
        r is Some ==> r.unwrap() == hex_digit_val(c),
{
    let u = c as u32;
    if 48 <= u && u <= 57 {
        Some(u - 48)
    } else if 97 <= u && u <= 102 {
        Some(u - 87)
    } else if 65 <= u && u <= 70 {
        Some(u - 55)
    } else {
        None
    }
}

/// Parses the character range `[a, b)` of `s` as one hex group.
pub fn parse_hex_group(s: &str, a: usize, b: usize) -> (r: Option<u16>)
    requires
        a <= b && b <= s@.len(),
    ensures
        ({
            let t = s@.subrange(a as int, b as int);
            &&& r is Some <==> valid_hex_group(t)
            &&& r is Some ==> r.unwrap() == hex_val(t)
        }),
{
    let ghost t = s@.subrange(a as int, b as int);
    let len = b - a;
    if len < 1 || len > 4 {
        return None;
    }
    let mut acc: u32 = 0;
    let mut j: usize = 0;
    while j < len
        invariant
            a <= b <= s@.len(),
            len == b - a,
            1 <= len <= 4,
            j <= len,
            t == s@.subrange(a as int, b as int),
            all_hex_digits(t.take(j as int)),
            acc == hex_val(t.take(j as int)),
            acc < 0x10000,
        decreases len - j,
    {
        let c = s.get_char(a + j);
        proof {
            assert(c == t[j as int]);
        }
        match hex_digit_of(c) {
            Some(d) => {
                proof {
                    assert(t.take(j + 1).drop_last() =~= t.take(j as int));
                    assert(t.take(j + 1).last() == t[j as int]);
                    assert(all_hex_digits(t.take(j + 1)));
                    lemma_hex_val_small(t.take(j + 1));
                }
                acc = acc * 16 + d;
            },
            None => {
                proof {
                    assert(!is_hex_digit(t[j as int]));
                }
                return None;
            },
        }
        j = j + 1;
    }
    proof {
        assert(t.take(len as int) =~= t);
    }
    Some(acc as u16)
}

/// Parses segments `parts[from..]` as low-end groups; returns their
/// value and unit count, or `None` where they are not valid low-end
/// groups or fill more than eight units.
fn parse_tail(s: &str, parts: &Vec<(usize, usize)>, from: usize) -> (r: Option<(u128, usize)>)
    requires
        from <= parts@.len(),
        forall|k: int|
            0 <= k < parts@.len() ==> (#[trigger] parts@[k]).0 <= parts@[k].1 && parts@[k].1
                <= s@.len(),
    ensures
        ({
            let tail = parts_of(s@, parts@).skip(from as int);
            &&& r is Some <==> (valid_tail_groups(tail) && tail_units(tail) <= 8)
            &&& r is Some ==> r.unwrap().0 == tail_val(tail) && r.unwrap().1 == tail_units(tail)
        }),
{
    let ghost tail = parts_of(s@, parts@).skip(from as int);
    let n = parts.len() - from;
    if n == 0 {
        return Some((0, 0));
    }
    if n > 8 {
        // nine or more groups fill nine or more units
        return None;
    }
    let mut acc: u128 = 0;
    let mut j: usize = 0;
    proof {
        lemma2_to64();
    }
    while j < n - 1
        invariant
            from <= parts@.len(),
            n == parts@.len() - from,
            from + n <= usize::MAX,
            1 <= n <= 8,
            j <= n - 1,
            forall|k: int|
                0 <= k < parts@.len() ==> (#[trigger] parts@[k]).0 <= parts@[k].1 && parts@[k].1
                    <= s@.len(),
            tail == parts_of(s@, parts@).skip(from as int),
            all_hex_groups(tail.take(j as int)),
            acc == tail_val(tail.take(j as int)),
            acc < pow2((16 * j) as nat),
        decreases n - 1 - j,
    {
        let (ga, gb) = parts[from + j];
        proof {
            assert(tail[j as int] == parts_of(s@, parts@)[from + j]);
        }
        match parse_hex_group(s, ga, gb) {
            Some(g) => {
                proof {
                    let tk = tail.take(j as int);
                    let tk1 = tail.take(j + 1);
                    assert(tk1.drop_last() =~= tk);
                    assert(tk1.last() == tail[j as int]);
                    lemma_hex_group_not_ipv4(tail[j as int]);
                    lemma_hex_val_small(tail[j as int]);
                    assert forall|i: int| 0 <= i < tk1.len() implies valid_hex_group(
                        #[trigger] tk1[i],
                    ) by {
                        if i < j {
                            assert(tk1[i] == tk[i]);
                        } else {
                            assert(tk1[i] == tail[j as int]);
                        }
                    }
                    lemma_pow2_adds((16 * j) as nat, 16);
                    lemma2_to64();
                    lemma_mul_inequality(acc as int, pow2((16 * j) as nat) - 1, 0x10000);
                    lemma_pow2_le((16 * j + 16) as nat, 112);
                    lemma_pow2_128();
                }
                acc = acc * 0x10000 + (g as u128);
            },
            None => {
                proof {
                    // a group before the last must be a hex group
                    assert(!valid_hex_group(tail[j as int]));
                    assert(tail.drop_last()[j as int] == tail[j as int]);
                }
                return None;
            },
        }
        j = j + 1;
    }
    let (ga, gb) = parts[from + n - 1];
    proof {
        assert(tail[n - 1] == parts_of(s@, parts@)[from + (n - 1)]);
        assert(tail.take(n - 1) =~= tail.drop_last());
        assert(tail.last() == tail[n - 1]);
        assert(tail.take(n as int) =~= tail);
    }
    match parse_hex_group(s, ga, gb) {
        Some(g) => {
            proof {
                lemma_hex_group_not_ipv4(tail.last());
                lemma_hex_val_small(tail.last());
                lemma_pow2_adds((16 * (n - 1)) as nat, 16);
                lemma2_to64();
                lemma_mul_inequality(acc as int, pow2((16 * (n - 1)) as nat) - 1, 0x10000);
                lemma_pow2_le((16 * n) as nat, 128);
                lemma_pow2_128();
            }
            let v = acc * 0x10000 + (g as u128);
            Some((v, n))
        },
        None => {
            match parse_ipv4_range(s, ga, gb) {
                Some(w) => {
                    if n == 8 {
                        // the embedded address makes nine units
                        return None;
                    }
                    proof {
                        lemma_ipv4_val_bound(tail.last());
                        lemma_pow2_adds((16 * (n - 1)) as nat, 32);
                        lemma2_to64();
                        lemma2_to64_rest();
                        lemma_mul_inequality(
                            acc as int,
                            pow2((16 * (n - 1)) as nat) - 1,
                            0x100000000,
                        );
                        lemma_pow2_le((16 * (n + 1)) as nat, 128);
                        lemma_pow2_128();
                    }
                    let v = acc * 0x100000000 + (w as u128);
                    Some((v, n + 1))
                },
                None => None,
            }
        },
    }
}

/// Parses segments `parts[..upto]` as high-end groups and returns
/// their value shifted into the top of the address.
fn parse_head(s: &str, parts: &Vec<(usize, usize)>, upto: usize) -> (r: Option<u128>)
    requires
        1 <= upto <= 7,
        upto <= parts@.len(),
        forall|k: int|
            0 <= k < parts@.len() ==> (#[trigger] parts@[k]).0 <= parts@[k].1 && parts@[k].1
                <= s@.len(),
    ensures
        ({
            let head = parts_of(s@, parts@).take(upto as int);
            &&& r is Some <==> all_hex_groups(head)
            &&& r is Some ==> r.unwrap() == head_val(head) * pow2((128 - 16 * upto) as nat)
        }),
{
    let ghost head = parts_of(s@, parts@).take(upto as int);
    let mut acc: u128 = 0;
    let mut j: usize = 0;
    proof {
        lemma2_to64();
    }
    while j < upto
        invariant
            1 <= upto <= 7,
            upto <= parts@.len(),
            j <= upto,
            forall|k: int|
                0 <= k < parts@.len() ==> (#[trigger] parts@[k]).0 <= parts@[k].1 && parts@[k].1
                    <= s@.len(),
            head == parts_of(s@, parts@).take(upto as int),
            all_hex_groups(head.take(j as int)),
            acc == head_val(head.take(j as int)),
            acc < pow2((16 * j) as nat),
        decreases upto - j,
    {
        let (ga, gb) = parts[j];
        proof {
            assert(head[j as int] == parts_of(s@, parts@)[j as int]);
        }
        match parse_hex_group(s, ga, gb) {
            Some(g) => {
                proof {
                    let hk = head.take(j as int);
                    let hk1 = head.take(j + 1);
                    assert(hk1.drop_last() =~= hk);
                    assert(hk1.last() == head[j as int]);
                    lemma_hex_val_small(head[j as int]);
                    assert forall|i: int| 0 <= i < hk1.len() implies valid_hex_group(
                        #[trigger] hk1[i],
                    ) by {
                        if i < j {
                            assert(hk1[i] == hk[i]);
                        } else {
                            assert(hk1[i] == head[j as int]);
                        }
                    }
                    lemma_pow2_adds((16 * j) as nat, 16);
                    lemma2_to64();
                    lemma_mul_inequality(acc as int, pow2((16 * j) as nat) - 1, 0x10000);
                    lemma_pow2_le((16 * j + 16) as nat, 112);
                    lemma_pow2_128();
                }
                acc = acc * 0x10000 + (g as u128);
            },
            None => {
                proof {
                    assert(!valid_hex_group(head[j as int]));
                }
                return None;
            },
        }
        j = j + 1;
    }
    proof {
        assert(head.take(upto as int) =~= head);
    }
    let ghost hv = head_val(head);
    let mut res: u128 = acc;
    let mut k: usize = 0;
    proof {
        lemma2_to64();
        vstd::arithmetic::mul::lemma_mul_basics(hv);
        assert(hv * pow2(0) == hv);
    }
    while k < 8 - upto
        invariant
            1 <= upto <= 7,
            k <= 8 - upto,
            hv == head_val(head),
            0 <= hv < pow2((16 * upto) as nat),
            res == hv * pow2((16 * k) as nat),
            res < pow2((16 * (upto + k)) as nat),
        decreases 8 - upto - k,
    {
        proof {
            lemma_pow2_adds((16 * k) as nat, 16);
            lemma2_to64();
            vstd::arithmetic::mul::lemma_mul_is_associative(
                hv,
                pow2((16 * k) as nat) as int,
                0x10000,
            );
            vstd::arithmetic::power2::lemma_pow2_pos((16 * (k + 1)) as nat);
            vstd::arithmetic::mul::lemma_mul_strict_inequality(
                hv,
                pow2((16 * upto) as nat) as int,
                pow2((16 * (k + 1)) as nat) as int,
            );
            lemma_pow2_adds((16 * upto) as nat, (16 * (k + 1)) as nat);
            lemma_pow2_le((16 * (upto + k + 1)) as nat, 128);
            lemma_pow2_128();
        }
        res = res * 0x10000;
        k = k + 1;
    }
    proof {
        assert(16 * (8 - upto) == 128 - 16 * upto);
    }
    Some(res)
}

/// Parses the character range `[a, b)` of `s` as a colon-hexadecimal
/// IPv6 address.
pub fn parse_ipv6_range(s: &str, a: usize, b: usize) -> (r: Option<u128>)
    requires
        a <= b && b <= s@.len(),
    ensures
        ({
            let t = s@.subrange(a as int, b as int);
            &&& r is Some <==> valid_ipv6_seq(t)
            &&& r is Some ==> r.unwrap() == ipv6_val(t)
        }),
{
    let ghost t = s@.subrange(a as int, b as int);
    let parts = split_range(s, a, b, ':');
    let ghost ps = split_on(t, ':');
    proof {
        assert(ps == parts_of(s@, parts@));
    }
    let n = parts.len();
    // locate the first empty segment
    let mut i: usize = 0;
    while i < n && parts[i].0 != parts[i].1
        invariant
            n == parts@.len(),
            i <= n,
            ps == parts_of(s@, parts@),
            forall|k: int|
                0 <= k < parts@.len() ==> (#[trigger] parts@[k]).0 <= parts@[k].1 && parts@[k].1
                    <= b,
            b <= s@.len(),
            forall|j: int| 0 <= j < i ==> (#[trigger] ps[j]).len() > 0,
        decreases n - i,
    {
        proof {
            assert(ps[i as int].len() == parts@[i as int].1 - parts@[i as int].0);
        }
        i = i + 1;
    }
    proof {
        if i < n {
            assert(ps[i as int].len() == parts@[i as int].1 - parts@[i as int].0);
        }
        lemma_first_empty_is(ps, i as int);
    }
    if i == n {
        proof {
            assert(ps.skip(0) =~= ps);
        }
        match parse_tail(s, &parts, 0) {
            Some((v, u)) => {
                if u == 8 {
                    Some(v)
                } else {
                    None
                }
            },
            None => None,
        }
    } else if i == 0 {
        if n >= 2 && parts[1].0 == parts[1].1 {
            if n == 3 && parts[2].0 == parts[2].1 {
                Some(0)
            } else if n == 2 {
                None
            } else {
                match parse_tail(s, &parts, 2) {
                    Some((v, u)) => {
                        if u <= 7 {
                            Some(v)
                        } else {
                            None
                        }
                    },
                    None => None,
                }
            }
        } else {
            None
        }
    } else if i == n - 2 && parts[n - 1].0 == parts[n - 1].1 {
        if i > 7 {
            None
        } else {
            parse_head(s, &parts, i)
        }
    } else if i < n - 1 {
        match parse_tail(s, &parts, i + 1) {
            Some((tv, u)) => {
                if i + u > 7 {
                    None
                } else {
                    match parse_head(s, &parts, i) {
                        Some(hv) => {
                            proof {
                                let head = ps.take(i as int);
                                let tl = ps.skip(i as int + 1);
                                lemma_head_val_bound(head);
                                lemma_tail_val_bound(tl);
                                lemma_pow2_128();
                                vstd::arithmetic::power2::lemma_pow2_pos(
                                    (128 - 16 * i as int) as nat,
                                );
                                lemma_mul_inequality(
                                    head_val(head),
                                    pow2((16 * i) as nat) - 1,
                                    pow2((128 - 16 * i as int) as nat) as int,
                                );
                                vstd::arithmetic::mul::lemma_mul_is_distributive_sub_other_way(
                                    pow2((128 - 16 * i as int) as nat) as int,
                                    pow2((16 * i) as nat) as int,
                                    1,
                                );
                                lemma_pow2_adds((16 * i) as nat, (128 - 16 * i as int) as nat);
                                lemma_pow2_le((16 * tail_units(tl)) as nat, (112 - 16 * i as int) as nat);
                                lemma_pow2_strictly_increases(
                                    (112 - 16 * i as int) as nat,
                                    (128 - 16 * i as int) as nat,
                                );
                            }
                            Some(hv + tv)
                        },
                        None => None,
                    }
                }
            },
            None => None,
        }
    } else {
        None
    }
}

/// Parses a textual IPv6 address into its 128-bit value; rejects any
/// string that is not a colon-hexadecimal address.
pub fn parse_ipv6_addr(s: &str) -> (r: Result<u128, CidrError>)
    ensures
        r is Ok <==> valid_ipv6_seq(s@),
        r is Ok ==> r.unwrap() == ipv6_val(s@),
        r is Err ==> r == Err::<u128, CidrError>(CidrError::InvalidAddress),
{
    proof {
        assert(s@.subrange(0, s@.len() as int) =~= s@);
    }
    let n = s.unicode_len();
    match parse_ipv6_range(s, 0, n) {
        Some(v) => Ok(v),
        None => Err(CidrError::InvalidAddress),
    }
}

} // verus!
