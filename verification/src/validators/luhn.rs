//! The Luhn (mod 10) checksum used by payment card numbers.
use vstd::prelude::*;

use crate::text::{ascii_digit, is_ascii_digit, to_chars};

verus! {

/// Value that the Luhn scheme adds for the digit `c`, doubled or not.
pub open spec fn luhn_digit(c: char, double: bool) -> int {
    let d = (c as u32) - ('0' as u32);
    if double {
        if 2 * d > 9 {
            2 * d - 9
        } else {
            2 * d
        }
    } else {
        d
    }
}

/// Luhn sum of `ds`, read from the right; `double` says whether the last digit is doubled.
pub open spec fn luhn_total(ds: Seq<char>, double: bool) -> int
    decreases ds.len(),
{
    if ds.len() == 0 {
        0
    } else {
        luhn_digit(ds.last(), double) + luhn_total(ds.drop_last(), !double)
    }
}

/// Every character of `s` is an ASCII digit.
pub open spec fn all_ascii_digits(s: Seq<char>) -> bool {
    forall|i: int| 0 <= i < s.len() ==> is_ascii_digit(#[trigger] s[i])
}

/// `ds` is a card number: 13 to 19 ASCII digits whose Luhn sum is a multiple of 10.
pub open spec fn luhn_valid(ds: Seq<char>) -> bool {
    &&& 13 <= ds.len() <= 19
    &&& all_ascii_digits(ds)
    &&& luhn_total(ds, false) % 10 == 0
}

/// Value of a decimal digit in the Luhn sum: itself, or, when doubled, twice
/// itself with 9 taken off when that exceeds 9.
pub open spec fn luhn_place_value(d: int, doubled: bool) -> int {
    if !doubled {
        d
    } else if d * 2 > 9 {
        d * 2 - 9
    } else {
        d * 2
    }
}

/// Sum of the places `0 .. m` of `ds` counted from the right: place `k` is the
/// digit `ds[len - 1 - k]`, doubled exactly when `k` is odd, so the check digit
/// (place 0) is never doubled.
pub open spec fn luhn_sum_from_right(ds: Seq<char>, m: int) -> int
    decreases m,
{
    if m <= 0 {
        0
    } else {
        luhn_sum_from_right(ds, m - 1) + luhn_place_value(
            (ds[ds.len() - m] as u32) - ('0' as u32),
            (m - 1) % 2 == 1,
        )
    }
}

proof fn lemma_luhn_total_from_right(ds: Seq<char>, m: int)
    requires
        0 <= m <= ds.len(),
    ensures
        luhn_total(ds, false) == luhn_total(ds.take(ds.len() - m), m % 2 == 1) + luhn_sum_from_right(
            ds,
            m,
        ),
    decreases m,
{
    if m == 0 {
        assert(ds.take(ds.len() as int) =~= ds);
    } else {
        lemma_luhn_total_from_right(ds, m - 1);
        let t = ds.take(ds.len() - (m - 1));
        assert(t.last() == ds[ds.len() - m]);
        assert(t.drop_last() =~= ds.take(ds.len() - m));
    }
}

/// The Luhn test read from the right: a number is valid exactly when it has 13
/// to 19 ASCII digits and the sum over its places, the check digit undoubled,
/// the one before it doubled, and so on alternating, is a multiple of 10.
pub proof fn law_luhn_reads_from_the_right(ds: Seq<char>)
    ensures
        luhn_valid(ds) <==> (13 <= ds.len() <= 19 && all_ascii_digits(ds) && luhn_sum_from_right(
            ds,
            ds.len() as int,
        ) % 10 == 0),
{
    lemma_luhn_total_from_right(ds, ds.len() as int);
    assert(ds.take(0) =~= Seq::<char>::empty());
}

/// Whether `digits` is 13 to 19 ASCII digits that pass the Luhn checksum.
pub fn is_valid(digits: &str) -> (r: bool)
    ensures
        r == luhn_valid(digits@),
{
    let cs = to_chars(digits);
    let n = cs.len();
    let mut k: usize = 0;
    while k < n
        invariant
            n == cs@.len(),
            cs@ == digits@,
            k <= n,
            forall|i: int| 0 <= i < k ==> is_ascii_digit(#[trigger] cs@[i]),
        decreases n - k,
    {
        if !ascii_digit(cs[k]) {
            assert(!is_ascii_digit(digits@[k as int]));
            return false;
        }
        k = k + 1;
    }
    if n < 13 || n > 19 {
        return false;
    }
    let mut sum: u32 = 0;
    let mut double = false;
    let mut i: usize = n;
    assert(cs@.take(n as int) =~= cs@);
    while i > 0
        invariant
            n == cs@.len(),
            n <= 19,
            i <= n,
            all_ascii_digits(cs@),
            sum <= 9 * (n - i),
            luhn_total(cs@, false) == sum + luhn_total(cs@.take(i as int), double),
        decreases i,
    {
        let c = cs[i - 1];
        assert(is_ascii_digit(cs@[i - 1]));
        let mut d: u32 = (c as u32) - 48;
        if double {
            d = d * 2;
            if d > 9 {
                d = d - 9;
            }
        }
        assert(cs@.take(i as int).drop_last() =~= cs@.take(i - 1));
        sum = sum + d;
        double = !double;
        i = i - 1;
    }
    assert(cs@.take(0) =~= Seq::<char>::empty());
    sum % 10 == 0
}

} // verus!
