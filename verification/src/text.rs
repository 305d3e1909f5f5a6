use vstd::prelude::*;

verus! {

// ---------------------------------------------------------------------------
// Characters and digit values
// ---------------------------------------------------------------------------

/// A decimal digit `'0'..='9'` (code points 48..=57).
pub open spec fn is_dec_digit(c: char) -> bool {
    48 <= c as int <= 57
}

/// Numeric value of a decimal digit.
pub open spec fn dec_digit_val(c: char) -> int {
    c as int - 48
}

/// A hexadecimal digit: `0-9`, `a-f` (97..=102) or `A-F` (65..=70).
pub open spec fn is_hex_digit(c: char) -> bool {
    (48 <= c as int <= 57) || (97 <= c as int <= 102) || (65 <= c as int <= 70)
}

/// Numeric value of a hexadecimal digit.
pub open spec fn hex_digit_val(c: char) -> int {
    if 48 <= c as int <= 57 {
        c as int - 48
    } else if 97 <= c as int <= 102 {
        c as int - 87
    } else {
        c as int - 55
    }
}

pub open spec fn all_dec_digits(s: Seq<char>) -> bool {
    forall|i: int| 0 <= i < s.len() ==> is_dec_digit(#[trigger] s[i])
}

pub open spec fn all_hex_digits(s: Seq<char>) -> bool {
    forall|i: int| 0 <= i < s.len() ==> is_hex_digit(#[trigger] s[i])
}

/// Value of a string of decimal digits, most significant first.
pub open spec fn dec_val(s: Seq<char>) -> int
    decreases s.len(),
{
    if s.len() == 0 {
        0
    } else {
        dec_val(s.drop_last()) * 10 + dec_digit_val(s.last())
    }
}

/// Value of a string of hexadecimal digits, most significant first.
pub open spec fn hex_val(s: Seq<char>) -> int
    decreases s.len(),
{
    if s.len() == 0 {
        0
    } else {
        hex_val(s.drop_last()) * 16 + hex_digit_val(s.last())
    }
}

pub proof fn lemma_dec_val_nonneg(s: Seq<char>)
    requires
        all_dec_digits(s),
    ensures
        0 <= dec_val(s),
    decreases s.len(),
{
    if s.len() > 0 {
        assert(all_dec_digits(s.drop_last()));
        lemma_dec_val_nonneg(s.drop_last());
    }
}

/// At most three decimal digits denote a value below 1000.
pub proof fn lemma_dec_val_small(s: Seq<char>)
    requires
        all_dec_digits(s),
        s.len() <= 3,
    ensures
        0 <= dec_val(s) < 1000,
        s.len() <= 2 ==> dec_val(s) < 100,
        s.len() <= 1 ==> dec_val(s) < 10,
    decreases s.len(),
{
    if s.len() > 0 {
        assert(all_dec_digits(s.drop_last()));
        lemma_dec_val_small(s.drop_last());
    }
}

/// At most four hexadecimal digits denote a value below 0x10000.
pub proof fn lemma_hex_val_small(s: Seq<char>)
    requires
        all_hex_digits(s),
        s.len() <= 4,
    ensures
        0 <= hex_val(s) < 0x10000,
        s.len() <= 3 ==> hex_val(s) < 0x1000,
        s.len() <= 2 ==> hex_val(s) < 0x100,
        s.len() <= 1 ==> hex_val(s) < 0x10,
    decreases s.len(),
{
    if s.len() > 0 {
        assert(all_hex_digits(s.drop_last()));
        lemma_hex_val_small(s.drop_last());
    }
}

// ---------------------------------------------------------------------------
// Splitting a string on a separator character
// ---------------------------------------------------------------------------

/// Index of the first occurrence of `c` in `s`, or `s.len()` if absent.
pub open spec fn find_idx(s: Seq<char>, c: char) -> int
    decreases s.len(),
{
    if s.len() == 0 {
        0
    } else if s[0] == c {
        0
    } else {
        1 + find_idx(s.skip(1), c)
    }
}

/// The segments of `s` between occurrences of the separator `c`,
/// in order; a string with `k` separators has `k + 1` segments,
/// some possibly empty.
pub open spec fn split_on(s: Seq<char>, c: char) -> Seq<Seq<char>>
    decreases s.len(),
{
    let f = find_idx(s, c);
    if 0 <= f && f < s.len() {
        seq![s.take(f)] + split_on(s.skip(f + 1), c)
    } else {
        seq![s]
    }
}

/// `find_idx` is pinned down by a witness: no occurrence before `k`,
/// and an occurrence at `k` (or `k` is the length).
pub proof fn lemma_find_idx_is(s: Seq<char>, c: char, k: int)
    requires
        0 <= k <= s.len(),
        forall|j: int| 0 <= j < k ==> s[j] != c,
        k < s.len() ==> s[k] == c,
    ensures
        find_idx(s, c) == k,
    decreases s.len(),
{
    if k == 0 {
        if s.len() > 0 {
            assert(s[0] == c);
        }
    } else {
        assert(s[0] != c);
        let t = s.skip(1);
        assert forall|j: int| 0 <= j < k - 1 implies t[j] != c by {
            assert(t[j] == s[j + 1]);
        }
        assert(k - 1 < t.len() ==> t[k - 1] == s[k]);
        lemma_find_idx_is(t, c, k - 1);
    }
}

/// A string without the separator splits into itself alone.
pub proof fn lemma_split_no_sep(s: Seq<char>, c: char)
    requires
        forall|j: int| 0 <= j < s.len() ==> s[j] != c,
    ensures
        split_on(s, c) == seq![s],
{
    lemma_find_idx_is(s, c, s.len() as int);
}

/// The segment ranges of `ranges` read out of `s`.
pub open spec fn parts_of(s: Seq<char>, ranges: Seq<(usize, usize)>) -> Seq<Seq<char>> {
    ranges.map_values(|p: (usize, usize)| s.subrange(p.0 as int, p.1 as int))
}

/// Splits the character range `[a, b)` of `s` on the separator `sep`,
/// returning the segments as character-index ranges into `s`.
pub fn split_range(s: &str, a: usize, b: usize, sep: char) -> (r: Vec<(usize, usize)>)
    requires
        a <= b <= s@.len(),
    ensures
        parts_of(s@, r@) == split_on(s@.subrange(a as int, b as int), sep),
        forall|k: int|
            0 <= k < r@.len() ==> a <= (#[trigger] r@[k]).0 && r@[k].0 <= r@[k].1 && r@[k].1 <= b,
        r@.len() >= 1,
{
    let ghost whole = s@.subrange(a as int, b as int);
    let mut r: Vec<(usize, usize)> = Vec::new();
    let mut ss: usize = a;
    let mut i: usize = a;
    while i < b
        invariant
            a <= ss <= i <= b <= s@.len(),
            forall|j: int| ss <= j < i ==> s@[j] != sep,
            forall|k: int|
                0 <= k < r@.len() ==> a <= (#[trigger] r@[k]).0 && r@[k].0 <= r@[k].1 && r@[k].1
                    <= b,
            whole == s@.subrange(a as int, b as int),
            split_on(whole, sep) == parts_of(s@, r@) + split_on(
                s@.subrange(ss as int, b as int),
                sep,
            ),
        decreases b - i,
    {
        let ch = s.get_char(i);
        if ch == sep {
            proof {
                let rest = s@.subrange(ss as int, b as int);
                assert forall|j: int| 0 <= j < i - ss implies rest[j] != sep by {
                    assert(rest[j] == s@[ss + j]);
                }
                assert(rest[i - ss] == s@[i as int]);
                lemma_find_idx_is(rest, sep, i - ss);
                assert(rest.take(i - ss) =~= s@.subrange(ss as int, i as int));
                assert(rest.skip(i - ss + 1) =~= s@.subrange(i + 1, b as int));
                assert(split_on(rest, sep) == seq![s@.subrange(ss as int, i as int)] + split_on(
                    s@.subrange(i + 1, b as int),
                    sep,
                ));
            }
            let ghost old_r = r@;
            r.push((ss, i));
            proof {
                assert(parts_of(s@, r@) =~= parts_of(s@, old_r) + seq![
                    s@.subrange(ss as int, i as int),
                ]);
                assert(parts_of(s@, old_r) + (seq![s@.subrange(ss as int, i as int)] + split_on(
                    s@.subrange(i + 1, b as int),
                    sep,
                )) =~= parts_of(s@, r@) + split_on(s@.subrange(i + 1, b as int), sep));
            }
            ss = i + 1;
        }
        i = i + 1;
    }
    proof {
        let rest = s@.subrange(ss as int, b as int);
        assert forall|j: int| 0 <= j < rest.len() implies rest[j] != sep by {
            assert(rest[j] == s@[ss + j]);
        }
        lemma_split_no_sep(rest, sep);
    }
    let ghost old_r = r@;
    r.push((ss, b));
    proof {
        assert(parts_of(s@, r@) =~= parts_of(s@, old_r) + seq![s@.subrange(ss as int, b as int)]);
    }
    r
}

} // verus!
