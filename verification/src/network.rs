use vstd::prelude::*;

use crate::ipv4::{dec_digit_of, ipv4_val, lemma_ipv4_val_bound, parse_ipv4_range, valid_ipv4_seq};
use crate::ipv6::{ipv6_val, parse_ipv6_range, valid_ipv6_seq};
use crate::text::{
    all_dec_digits, dec_val, is_dec_digit, lemma_dec_val_nonneg, parts_of, split_on, split_range,
};
use crate::CidrError;

verus! {

// ---------------------------------------------------------------------------
// Prefix masks and membership
// ---------------------------------------------------------------------------

/// The 32-bit mask with the top `p` bits set.
pub open spec fn mask32(p: int) -> u32
    recommends
        0 <= p <= 32,
{
    if p <= 0 {
        0u32
    } else {
        (0xFFFFFFFFu32 << ((32 - p) as u32)) as u32
    }
}

/// The 128-bit mask with the top `p` bits set.
pub open spec fn mask128(p: int) -> u128
    recommends
        0 <= p <= 128,
{
    if p <= 0 {
        0u128
    } else {
        (0xFFFFFFFFFFFFFFFFFFFFFFFFFFFFFFFFu128 << ((128 - p) as u128)) as u128
    }
}

/// Membership of an IPv4 address in a network: the top `prefix` bits
/// agree with the base address.
pub open spec fn ipv4_in_network(addr: u32, base: u32, prefix: int) -> bool {
    addr & mask32(prefix) == base & mask32(prefix)
}

/// Membership of an IPv6 address in a network.
pub open spec fn ipv6_in_network(addr: u128, base: u128, prefix: int) -> bool {
    addr & mask128(prefix) == base & mask128(prefix)
}

pub fn ipv4_mask(prefix: u8) -> (m: u32)
    requires
        prefix <= 32,
    ensures
        m == mask32(prefix as int),
{
    if prefix == 0 {
        0
    } else {
        0xFFFFFFFFu32 << ((32 - prefix) as u32)
    }
}

pub fn ipv6_mask(prefix: u8) -> (m: u128)
    requires
        prefix <= 128,
    ensures
        m == mask128(prefix as int),
{
    if prefix == 0 {
        0
    } else {
        0xFFFFFFFFFFFFFFFFFFFFFFFFFFFFFFFFu128 << ((128 - prefix) as u128)
    }
}

// ---------------------------------------------------------------------------
// Networks
// ---------------------------------------------------------------------------

/// An IPv4 network: a base address and a prefix length. Base bits
/// below the prefix are kept as supplied; membership ignores them.
#[derive(Clone, Copy, PartialEq, Eq, Debug, Structural)]
pub struct Ipv4Network {
    pub base: u32,
    pub prefix: u8,
}

impl Ipv4Network {
    /// The prefix length never exceeds the 32-bit family width.
    pub open spec fn wf(&self) -> bool {
        self.prefix <= 32
    }

    /// Does `addr` lie in this network?
    pub fn contains(&self, addr: u32) -> (r: bool)
        requires
            self.wf(),
        ensures
            r == ipv4_in_network(addr, self.base, self.prefix as int),
    {
        let m = ipv4_mask(self.prefix);
        addr & m == self.base & m
    }
}

/// An IPv6 network: a base address and a prefix length.
#[derive(Clone, Copy, PartialEq, Eq, Debug, Structural)]
pub struct Ipv6Network {
    pub base: u128,
    pub prefix: u8,
}

impl Ipv6Network {
    /// The prefix length never exceeds the 128-bit family width.
    pub open spec fn wf(&self) -> bool {
        self.prefix <= 128
    }

    /// Does `addr` lie in this network?
    pub fn contains(&self, addr: u128) -> (r: bool)
        requires
            self.wf(),
        ensures
            r == ipv6_in_network(addr, self.base, self.prefix as int),
    {
        let m = ipv6_mask(self.prefix);
        addr & m == self.base & m
    }
}

// ---------------------------------------------------------------------------
// CIDR text
// ---------------------------------------------------------------------------

/// A prefix length: one or more decimal digits (leading zeros allowed).
pub open spec fn valid_prefix_seq(t: Seq<char>) -> bool {
    t.len() >= 1 && all_dec_digits(t)
}

/// CIDR text for the IPv4 family: address, one slash, prefix length
/// of at most 32.
pub open spec fn valid_ipv4_cidr(s: Seq<char>) -> bool {
    let qs = split_on(s, '/');
    &&& qs.len() == 2
    &&& valid_ipv4_seq(qs[0])
    &&& valid_prefix_seq(qs[1])
    &&& dec_val(qs[1]) <= 32
}

pub open spec fn ipv4_cidr_base(s: Seq<char>) -> int {
    ipv4_val(split_on(s, '/')[0])
}

pub open spec fn ipv4_cidr_prefix(s: Seq<char>) -> int {
    dec_val(split_on(s, '/')[1])
}

/// CIDR text for the IPv6 family: address, one slash, prefix length
/// of at most 128.
pub open spec fn valid_ipv6_cidr(s: Seq<char>) -> bool {
    let qs = split_on(s, '/');
    &&& qs.len() == 2
    &&& valid_ipv6_seq(qs[0])
    &&& valid_prefix_seq(qs[1])
    &&& dec_val(qs[1]) <= 128
}

pub open spec fn ipv6_cidr_base(s: Seq<char>) -> int {
    ipv6_val(split_on(s, '/')[0])
}

pub open spec fn ipv6_cidr_prefix(s: Seq<char>) -> int {
    dec_val(split_on(s, '/')[1])
}

/// Parses the character range `[a, b)` of `s` as a decimal prefix
/// length of at most `width`.
pub fn parse_prefix(s: &str, a: usize, b: usize, width: u8) -> (r: Option<u8>)
    requires
        a <= b && b <= s@.len(),
        width == 32 || width == 128,
    ensures
        ({
            let t = s@.subrange(a as int, b as int);
            &&& r is Some <==> (valid_prefix_seq(t) && dec_val(t) <= width)
            &&& r is Some ==> r.unwrap() == dec_val(t)
        }),
{
    let ghost t = s@.subrange(a as int, b as int);
    if a == b {
        return None;
    }
    // the accumulator is clamped at 129: any value above each family
    // width, so that further digits need not be accumulated exactly
    let mut acc: u32 = 0;
    let mut j: usize = 0;
    while j < b - a
        invariant
            a <= b <= s@.len(),
            a < b,
            j <= b - a,
            t == s@.subrange(a as int, b as int),
            all_dec_digits(t.take(j as int)),
            acc <= 129,
            acc == dec_val(t.take(j as int)) || (acc == 129 && dec_val(t.take(j as int)) > 128),
        decreases b - a - j,
    {
        let c = s.get_char(a + j);
        proof {
            assert(c == t[j as int]);
        }
        match dec_digit_of(c) {
            Some(d) => {
                proof {
                    assert(t.take(j + 1).drop_last() =~= t.take(j as int));
                    assert(t.take(j + 1).last() == t[j as int]);
                    assert(all_dec_digits(t.take(j + 1)));
                    lemma_dec_val_nonneg(t.take(j as int));
                }
                let next = acc * 10 + d;
                acc = if next > 129 {
                    129
                } else {
                    next
                };
            },
            None => {
                proof {
                    assert(!is_dec_digit(t[j as int]));
                }
                return None;
            },
        }
        j = j + 1;
    }
    proof {
        assert(t.take((b - a) as int) =~= t);
    }
    if acc > width as u32 {
        return None;
    }
    Some(acc as u8)
}

/// Parses `address/prefix` CIDR text for the IPv4 family.
pub fn parse_ipv4_network(s: &str) -> (r: Result<Ipv4Network, CidrError>)
    ensures
        r is Ok <==> valid_ipv4_cidr(s@),
        r is Ok ==> ({
            let n = r.unwrap();
            &&& n.wf()
            &&& n.base == ipv4_cidr_base(s@)
            &&& n.prefix == ipv4_cidr_prefix(s@)
        }),
        r is Err ==> r == Err::<Ipv4Network, CidrError>(CidrError::InvalidCidr),
{
    proof {
        assert(s@.subrange(0, s@.len() as int) =~= s@);
    }
    let len = s.unicode_len();
    let qs = split_range(s, 0, len, '/');
    let ghost parts = split_on(s@, '/');
    if qs.len() != 2 {
        return Err(CidrError::InvalidCidr);
    }
    proof {
        assert(parts[0] == parts_of(s@, qs@)[0]);
        assert(parts[1] == parts_of(s@, qs@)[1]);
    }
    let (a0, b0) = (qs[0].0, qs[0].1);
    let (a1, b1) = (qs[1].0, qs[1].1);
    let base = match parse_ipv4_range(s, a0, b0) {
        Some(v) => v,
        None => {
            return Err(CidrError::InvalidCidr);
        },
    };
    let prefix = match parse_prefix(s, a1, b1, 32) {
        Some(p) => p,
        None => {
            return Err(CidrError::InvalidCidr);
        },
    };
    Ok(Ipv4Network { base, prefix })
}

/// Parses `address/prefix` CIDR text for the IPv6 family.
pub fn parse_ipv6_network(s: &str) -> (r: Result<Ipv6Network, CidrError>)
    ensures
        r is Ok <==> valid_ipv6_cidr(s@),
        r is Ok ==> ({
            let n = r.unwrap();
            &&& n.wf()
            &&& n.base == ipv6_cidr_base(s@)
            &&& n.prefix == ipv6_cidr_prefix(s@)
        }),
        r is Err ==> r == Err::<Ipv6Network, CidrError>(CidrError::InvalidCidr),
{
    proof {
        assert(s@.subrange(0, s@.len() as int) =~= s@);
    }
    let len = s.unicode_len();
    let qs = split_range(s, 0, len, '/');
    let ghost parts = split_on(s@, '/');
    if qs.len() != 2 {
        return Err(CidrError::InvalidCidr);
    }
    proof {
        assert(parts[0] == parts_of(s@, qs@)[0]);
        assert(parts[1] == parts_of(s@, qs@)[1]);
    }
    let (a0, b0) = (qs[0].0, qs[0].1);
    let (a1, b1) = (qs[1].0, qs[1].1);
    let base = match parse_ipv6_range(s, a0, b0) {
        Some(v) => v,
        None => {
            return Err(CidrError::InvalidCidr);
        },
    };
    let prefix = match parse_prefix(s, a1, b1, 128) {
        Some(p) => p,
        None => {
            return Err(CidrError::InvalidCidr);
        },
    };
    Ok(Ipv6Network { base, prefix })
}

// ---------------------------------------------------------------------------
// Laws of membership
// ---------------------------------------------------------------------------

/// A prefix length of zero matches every IPv4 address.
pub proof fn lemma_zero_prefix_contains_all_v4(addr: u32, base: u32)
    ensures
        ipv4_in_network(addr, base, 0),
{
    assert(addr & 0u32 == base & 0u32) by (bit_vector);
}

/// A prefix length of zero matches every IPv6 address.
pub proof fn lemma_zero_prefix_contains_all_v6(addr: u128, base: u128)
    ensures
        ipv6_in_network(addr, base, 0),
{
    assert(addr & 0u128 == base & 0u128) by (bit_vector);
}

/// A full-width prefix demands exact equality of IPv4 addresses.
pub proof fn lemma_full_prefix_is_equality_v4(addr: u32, base: u32)
    ensures
        ipv4_in_network(addr, base, 32) <==> addr == base,
{
    assert(0xFFFFFFFFu32 << 0u32 == 0xFFFFFFFFu32) by (bit_vector);
    assert(addr & 0xFFFFFFFFu32 == addr) by (bit_vector);
    assert(base & 0xFFFFFFFFu32 == base) by (bit_vector);
}

/// A full-width prefix demands exact equality of IPv6 addresses.
pub proof fn lemma_full_prefix_is_equality_v6(addr: u128, base: u128)
    ensures
        ipv6_in_network(addr, base, 128) <==> addr == base,
{
    assert(0xFFFFFFFFFFFFFFFFFFFFFFFFFFFFFFFFu128 << 0u128
        == 0xFFFFFFFFFFFFFFFFFFFFFFFFFFFFFFFFu128) by (bit_vector);
    assert(addr & 0xFFFFFFFFFFFFFFFFFFFFFFFFFFFFFFFFu128 == addr) by (bit_vector);
    assert(base & 0xFFFFFFFFFFFFFFFFFFFFFFFFFFFFFFFFu128 == base) by (bit_vector);
}

/// Membership reads only the top `prefix` bits of the address and the
/// base: values that agree there are interchangeable.
pub proof fn lemma_membership_reads_prefix_only_v4(
    a1: u32,
    b1: u32,
    a2: u32,
    b2: u32,
    prefix: int,
)
    requires
        0 <= prefix <= 32,
        a1 & mask32(prefix) == a2 & mask32(prefix),
        b1 & mask32(prefix) == b2 & mask32(prefix),
    ensures
        ipv4_in_network(a1, b1, prefix) == ipv4_in_network(a2, b2, prefix),
{
}

/// Membership reads only the top `prefix` bits, IPv6.
pub proof fn lemma_membership_reads_prefix_only_v6(
    a1: u128,
    b1: u128,
    a2: u128,
    b2: u128,
    prefix: int,
)
    requires
        0 <= prefix <= 128,
        a1 & mask128(prefix) == a2 & mask128(prefix),
        b1 & mask128(prefix) == b2 & mask128(prefix),
    ensures
        ipv6_in_network(a1, b1, prefix) == ipv6_in_network(a2, b2, prefix),
{
}

/// Flipping one bit below the prefix, in the address or in the base,
/// never changes IPv4 membership.
pub proof fn lemma_host_bit_flip_v4(addr: u32, base: u32, prefix: u8, bit: u32)
    requires
        prefix <= 32,
        bit < 32 - prefix,
    ensures
        ipv4_in_network(addr ^ (1u32 << bit), base, prefix as int) == ipv4_in_network(
            addr,
            base,
            prefix as int,
        ),
        ipv4_in_network(addr, base ^ (1u32 << bit), prefix as int) == ipv4_in_network(
            addr,
            base,
            prefix as int,
        ),
{
    if prefix == 0 {
        lemma_zero_prefix_contains_all_v4(addr ^ (1u32 << bit), base);
        lemma_zero_prefix_contains_all_v4(addr, base ^ (1u32 << bit));
        lemma_zero_prefix_contains_all_v4(addr, base);
    } else {
        let sh = (32 - prefix) as u32;
        assert((addr ^ (1u32 << bit)) & (0xFFFFFFFFu32 << sh) == addr & (0xFFFFFFFFu32 << sh))
            by (bit_vector)
            requires
                bit < sh && sh < 32,
        ;
        assert((base ^ (1u32 << bit)) & (0xFFFFFFFFu32 << sh) == base & (0xFFFFFFFFu32 << sh))
            by (bit_vector)
            requires
                bit < sh && sh < 32,
        ;
    }
}

/// Flipping one bit below the prefix never changes IPv6 membership.
pub proof fn lemma_host_bit_flip_v6(addr: u128, base: u128, prefix: u8, bit: u128)
    requires
        prefix <= 128,
        bit < 128 - prefix,
    ensures
        ipv6_in_network(addr ^ (1u128 << bit), base, prefix as int) == ipv6_in_network(
            addr,
            base,
            prefix as int,
        ),
        ipv6_in_network(addr, base ^ (1u128 << bit), prefix as int) == ipv6_in_network(
            addr,
            base,
            prefix as int,
        ),
{
    if prefix == 0 {
        lemma_zero_prefix_contains_all_v6(addr ^ (1u128 << bit), base);
        lemma_zero_prefix_contains_all_v6(addr, base ^ (1u128 << bit));
        lemma_zero_prefix_contains_all_v6(addr, base);
    } else {
        let sh = (128 - prefix) as u128;
        assert((addr ^ (1u128 << bit)) & (0xFFFFFFFFFFFFFFFFFFFFFFFFFFFFFFFFu128 << sh) == addr & (
        0xFFFFFFFFFFFFFFFFFFFFFFFFFFFFFFFFu128 << sh)) by (bit_vector)
            requires
                bit < sh && sh < 128,
        ;
        assert((base ^ (1u128 << bit)) & (0xFFFFFFFFFFFFFFFFFFFFFFFFFFFFFFFFu128 << sh) == base & (
        0xFFFFFFFFFFFFFFFFFFFFFFFFFFFFFFFFu128 << sh)) by (bit_vector)
            requires
                bit < sh && sh < 128,
        ;
    }
}

} // verus!
