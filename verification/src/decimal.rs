use vstd::prelude::*;
use vstd::slice::slice_subrange;
use crate::bms_parser::{digit_value, is_digit};

verus! {

/// The byte that parts the whole digits of a number from the rest: `.`.
pub const POINT: u8 = 46;

/// The sign of a number that is not below zero: `+`.
pub const PLUS: u8 = 43;

/// The sign of a number below zero: `-`.
pub const MINUS: u8 = 45;

/// The byte opens the exponent of a number: `e` or `E`.
pub open spec fn is_exponent_mark(b: u8) -> bool {
    b == 101 || b == 69
}

/// The first index at or after `i` that holds the point, or the length of
/// `s` where there is none.
pub open spec fn point_index(s: Seq<u8>, i: int) -> int
    decreases s.len() - i,
{
    if 0 <= i < s.len() && s[i] != POINT {
        point_index(s, i + 1)
    } else {
        i
    }
}

/// The first index at or after `i` that opens an exponent, or the length
/// of `s` where there is none.
pub open spec fn mark_index(s: Seq<u8>, i: int) -> int
    decreases s.len() - i,
{
    if 0 <= i < s.len() && !is_exponent_mark(s[i]) {
        mark_index(s, i + 1)
    } else {
        i
    }
}

/// Only digits stand from `from` up to `to`.
pub open spec fn all_digits(s: Seq<u8>, from: int, to: int) -> bool {
    forall|i: int| from <= i < to ==> is_digit(#[trigger] s[i])
}

/// The number that the digits from `from` up to `to` write.
pub open spec fn digits_value(s: Seq<u8>, from: int, to: int) -> int
    decreases to - from,
{
    if to <= from {
        0
    } else {
        digits_value(s, from, to - 1) * 10 + digit_value(s[to - 1])
    }
}

/// The text is digits with at most one point among them, and at least one
/// digit.
pub open spec fn is_decimal(s: Seq<u8>) -> bool {
    let p = point_index(s, 0);
    &&& all_digits(s, 0, p)
    &&& all_digits(s, p + 1, s.len() as int)
    &&& (p > 0 || p + 1 < s.len())
}

/// How many bytes the sign of a text takes: one where it opens with `+`
/// or `-`, none else.
pub open spec fn sign_len(s: Seq<u8>) -> int {
    if s.len() > 0 && (s[0] == PLUS || s[0] == MINUS) {
        1
    } else {
        0
    }
}

/// The text opens with the sign of a number below zero.
pub open spec fn is_negative(s: Seq<u8>) -> bool {
    s.len() > 0 && s[0] == MINUS
}

/// The digits and the point of a number: what stands between its sign and
/// its exponent.
pub open spec fn mantissa(s: Seq<u8>) -> Seq<u8> {
    s.subrange(sign_len(s), mark_index(s, sign_len(s)))
}

/// The number has an exponent.
pub open spec fn has_exponent(s: Seq<u8>) -> bool {
    mark_index(s, sign_len(s)) < s.len()
}

/// What follows the mark of the exponent.
pub open spec fn exponent_text(s: Seq<u8>) -> Seq<u8> {
    s.subrange(mark_index(s, sign_len(s)) + 1, s.len() as int)
}

/// The text is a whole number with or without a sign.
pub open spec fn is_whole(x: Seq<u8>) -> bool {
    x.len() > sign_len(x) && all_digits(x, sign_len(x), x.len() as int)
}

/// The whole number that a text with or without a sign writes.
pub open spec fn whole_value(x: Seq<u8>) -> int {
    if is_negative(x) {
        -digits_value(x, sign_len(x), x.len() as int)
    } else {
        digits_value(x, sign_len(x), x.len() as int)
    }
}

/// By how many places the exponent of a number moves its point to the right.
pub open spec fn exponent_of(s: Seq<u8>) -> int {
    if has_exponent(s) {
        whole_value(exponent_text(s))
    } else {
        0
    }
}

/// The text is a number: a sign or none, digits with at most one point
/// and at least one digit, and an exponent or none, which is the letter
/// `e` of either case and a whole number.
pub open spec fn is_number(s: Seq<u8>) -> bool {
    is_decimal(mantissa(s)) && (has_exponent(s) ==> is_whole(exponent_text(s)))
}

/// The number is zero: it has no digit but `0`.
pub open spec fn is_zero(s: Seq<u8>) -> bool {
    forall|i: int|
        0 <= i < mantissa(s).len() ==> (#[trigger] mantissa(s)[i]) == 48 || mantissa(s)[i] == POINT
}

/// The `j`-th digit of digits with a point, the point passed over; zero
/// behind the last of them.
pub open spec fn shifted_digit(m: Seq<u8>, j: int) -> int {
    let p = point_index(m, 0);
    if 0 <= j < p {
        digit_value(m[j])
    } else if p <= j && j + 1 < m.len() {
        digit_value(m[j + 1])
    } else {
        0
    }
}

/// The number that the first `k` digits write, the point passed over and
/// zeros added behind the last digit: the whole part of the number after its
/// point was moved to stand behind its `k`-th digit.
pub open spec fn shifted_value(m: Seq<u8>, k: int) -> int
    decreases k,
{
    if k <= 0 {
        0
    } else {
        shifted_value(m, k - 1) * 10 + shifted_digit(m, k - 1)
    }
}

/// The number with its point moved `places` digits to the right, and what
/// then still stands behind the point cut off.
pub open spec fn scaled_value(s: Seq<u8>, places: int) -> int {
    shifted_value(mantissa(s), point_index(mantissa(s), 0) + exponent_of(s) + places)
}

/// The value of a number in units of `10` to the minus `places`, where the
/// text is a number, the number is not below zero, and the value fits.
pub open spec fn fixed_point(s: Seq<u8>, places: int) -> Option<u32> {
    if !is_number(s) {
        None
    } else if is_negative(s) {
        if is_zero(s) {
            Some(0u32)
        } else {
            None
        }
    } else if scaled_value(s, places) <= u32::MAX {
        Some(scaled_value(s, places) as u32)
    } else {
        None
    }
}

proof fn lemma_point_index_range(s: Seq<u8>, i: int)
    requires
        0 <= i <= s.len(),
    ensures
        i <= point_index(s, i) <= s.len(),
    decreases s.len() - i,
{
    if i < s.len() && s[i] != POINT {
        lemma_point_index_range(s, i + 1);
    }
}

proof fn lemma_shifted_digit_range(m: Seq<u8>, j: int)
    requires
        is_decimal(m),
    ensures
        0 <= shifted_digit(m, j) <= 9,
        j >= m.len() ==> shifted_digit(m, j) == 0,
{
    let p = point_index(m, 0);
    lemma_point_index_range(m, 0);
    if 0 <= j < p {
        assert(is_digit(m[j]));
    } else if p <= j && j + 1 < m.len() {
        assert(is_digit(m[j + 1]));
    }
}

proof fn lemma_shifted_grows(m: Seq<u8>, j: int, k: int)
    requires
        is_decimal(m),
        j <= k,
    ensures
        0 <= shifted_value(m, j) <= shifted_value(m, k),
    decreases k - j,
{
    if j < k {
        lemma_shifted_grows(m, j, k - 1);
        lemma_shifted_digit_range(m, k - 1);
    } else {
        lemma_shifted_nonnegative(m, j);
    }
}

proof fn lemma_shifted_nonnegative(m: Seq<u8>, k: int)
    requires
        is_decimal(m),
    ensures
        0 <= shifted_value(m, k),
    decreases k,
{
    if k > 0 {
        lemma_shifted_nonnegative(m, k - 1);
        lemma_shifted_digit_range(m, k - 1);
    }
}

/// Behind the last digit the value stays zero if it is zero there.
proof fn lemma_shifted_stays_zero(m: Seq<u8>, from: int, k: int)
    requires
        is_decimal(m),
        m.len() <= from <= k,
        shifted_value(m, from) == 0,
    ensures
        shifted_value(m, k) == 0,
    decreases k - from,
{
    if from < k {
        lemma_shifted_stays_zero(m, from, k - 1);
        lemma_shifted_digit_range(m, k - 1);
    }
}

/// Ten places behind the last digit a value that is not zero is beyond
/// what fits.
proof fn lemma_shifted_outgrows(m: Seq<u8>)
    requires
        is_decimal(m),
        shifted_value(m, m.len() as int) >= 1,
    ensures
        shifted_value(m, m.len() as int + 10) > u32::MAX,
{
    let n = m.len() as int;
    reveal_with_fuel(shifted_value, 11);
    lemma_shifted_digit_range(m, n);
    lemma_shifted_digit_range(m, n + 1);
    lemma_shifted_digit_range(m, n + 2);
    lemma_shifted_digit_range(m, n + 3);
    lemma_shifted_digit_range(m, n + 4);
    lemma_shifted_digit_range(m, n + 5);
    lemma_shifted_digit_range(m, n + 6);
    lemma_shifted_digit_range(m, n + 7);
    lemma_shifted_digit_range(m, n + 8);
    lemma_shifted_digit_range(m, n + 9);
}

/// What the exponent of a number was found to be: its value where that
/// is small, and else only on which side of zero it lies.
spec fn exponent_found(s: Seq<u8>, found: i128) -> bool {
    let exp = exponent_of(s);
    if -EXPONENT_CAP < found < EXPONENT_CAP {
        exp == found
    } else if found >= EXPONENT_CAP {
        found == EXPONENT_CAP && exp >= EXPONENT_CAP
    } else {
        found == -EXPONENT_CAP && exp <= -EXPONENT_CAP
    }
}

/// A size beyond which exponents are no longer told apart: none of them
/// leaves a digit before or behind the point. It is two to the hundredth.
const EXPONENT_CAP: i128 = 0x10_0000_0000_0000_0000_0000_0000;

/// Reads the exponent of a number that has one; `None` where what follows
/// the mark is no whole number.
fn read_exponent(s: &[u8], mark: usize) -> (found: Option<i128>)
    requires
        mark == mark_index(s@, sign_len(s@)),
        mark < s.len(),
    ensures
        match found {
            Some(exp) => is_whole(exponent_text(s@)) && exponent_found(s@, exp),
            None => !is_whole(exponent_text(s@)),
        },
{
    let x = slice_subrange(s, mark + 1, s.len());
    assert(x@ == exponent_text(s@));
    let from: usize = if x.len() > 0 && (x[0] == PLUS || x[0] == MINUS) {
        1
    } else {
        0
    };
    let negative: bool = x.len() > 0 && x[0] == MINUS;
    if x.len() == from {
        return None;
    }
    let mut size: i128 = 0;
    let mut i: usize = from;
    while i < x.len()
        invariant
            from <= i <= x.len(),
            from == sign_len(x@),
            x@ == exponent_text(s@),
            all_digits(x@, from as int, i as int),
            0 <= size <= EXPONENT_CAP,
            size < EXPONENT_CAP ==> size == digits_value(x@, from as int, i as int),
            size == EXPONENT_CAP ==> digits_value(x@, from as int, i as int) >= EXPONENT_CAP,
        decreases x.len() - i,
    {
        if x[i] < 48 || x[i] > 57 {
            assert(!is_digit(x@[i as int]));
            return None;
        }
        assert(is_digit(x@[i as int]));
        let next: i128 = size * 10 + (x[i] - 48) as i128;
        size = if next >= EXPONENT_CAP {
            EXPONENT_CAP
        } else {
            next
        };
        i = i + 1;
    }
    if negative {
        Some(-size)
    } else {
        Some(size)
    }
}

/// Whether the digits with a point are digits with at most one point and
/// at least one digit, and where the point stands.
fn read_mantissa(m: &[u8]) -> (found: Option<usize>)
    ensures
        match found {
            Some(p) => is_decimal(m@) && p == point_index(m@, 0) && p <= m.len(),
            None => !is_decimal(m@),
        },
{
    let mut p: usize = 0;
    while p < m.len() && m[p] != POINT
        invariant
            0 <= p <= m.len(),
            point_index(m@, 0) == point_index(m@, p as int),
        decreases m.len() - p,
    {
        p = p + 1;
    }
    let mut i: usize = 0;
    while i < m.len()
        invariant
            0 <= i <= m.len(),
            p == point_index(m@, 0),
            p <= m.len(),
            all_digits(m@, 0, if i <= p { i as int } else { p as int }),
            all_digits(m@, p + 1, i as int),
        decreases m.len() - i,
    {
        if i != p && (m[i] < 48 || m[i] > 57) {
            assert(!is_digit(m@[i as int]));
            return None;
        }
        i = i + 1;
    }
    if m.len() == 0 || (p == 0 && m.len() == 1) {
        return None;
    }
    Some(p)
}

/// Whether the digits with a point hold no digit but `0`.
fn no_digit_but_zero(m: &[u8]) -> (yes: bool)
    ensures
        yes == forall|i: int| 0 <= i < m@.len() ==> (#[trigger] m@[i]) == 48 || m@[i] == POINT,
{
    let mut i: usize = 0;
    while i < m.len()
        invariant
            0 <= i <= m.len(),
            forall|j: int| 0 <= j < i ==> (#[trigger] m@[j]) == 48 || m@[j] == POINT,
        decreases m.len() - i,
    {
        if m[i] != 48 && m[i] != POINT {
            return false;
        }
        i = i + 1;
    }
    true
}

/// The value of digits with a point after the point was moved to stand
/// behind the `k`-th digit; `None` where it does not fit.
fn read_shifted(m: &[u8], p: usize, found: i128, Ghost(k): Ghost<int>) -> (value: Option<u32>)
    requires
        is_decimal(m@),
        p == point_index(m@, 0),
        p <= m.len(),
        found <= 0 ==> k <= found,
        found > 0 ==> k == found || (found > m.len() + 10 && k >= found),
    ensures
        value == if shifted_value(m@, k) <= u32::MAX {
            Some(shifted_value(m@, k) as u32)
        } else {
            None
        },
{
    proof {
        lemma_shifted_nonnegative(m@, k);
    }
    if found <= 0 {
        return Some(0);
    }
    let mut acc: u64 = 0;
    let mut j: usize = 0;
    while j < m.len() && (j as i128) < found
        invariant
            0 <= j <= m.len(),
            j <= found <= k,
            is_decimal(m@),
            p == point_index(m@, 0),
            p <= m.len(),
            acc == shifted_value(m@, j as int),
            acc <= u32::MAX,
        decreases m.len() - j,
    {
        proof {
            lemma_shifted_digit_range(m@, j as int);
        }
        let d: u64 = if j < p {
            (m[j] - 48) as u64
        } else if j < m.len() - 1 {
            (m[j + 1] - 48) as u64
        } else {
            0
        };
        acc = acc * 10 + d;
        j = j + 1;
        if acc > 0xffff_ffff {
            proof {
                lemma_shifted_grows(m@, j as int, k);
            }
            return None;
        }
    }
    let mut t: u8 = 0;
    while t < 10 && (j as i128) + (t as i128) < found
        invariant
            0 <= t <= 10,
            j + t <= found <= k,
            j == m.len() || j == found,
            is_decimal(m@),
            acc == shifted_value(m@, j + t),
            acc <= u32::MAX,
        decreases 10 - t,
    {
        proof {
            lemma_shifted_digit_range(m@, j + t);
        }
        acc = acc * 10;
        t = t + 1;
        if acc > 0xffff_ffff {
            proof {
                lemma_shifted_grows(m@, j + t, k);
            }
            return None;
        }
    }
    proof {
        if j + t < found {
            assert(t == 10 && j == m.len());
            if shifted_value(m@, m@.len() as int) >= 1 {
                lemma_shifted_outgrows(m@);
            }
            lemma_shifted_grows(m@, m@.len() as int, m@.len() as int + 10);
            lemma_shifted_stays_zero(m@, m@.len() as int, k);
            lemma_shifted_stays_zero(m@, m@.len() as int, m@.len() as int + 10);
        }
    }
    Some(acc as u32)
}

/// Reads a number as a whole count of units of `10` to the minus `places`.
/// Digits beyond `places` behind the point are cut off. `None` where the
/// text is no number, the number is below zero, or the count does not fit.
pub fn parse_fixed(s: &[u8], places: u8) -> (value: Option<u32>)
    ensures
        value == fixed_point(s@, places as int),
{
    let from: usize = if s.len() > 0 && (s[0] == PLUS || s[0] == MINUS) {
        1
    } else {
        0
    };
    let negative: bool = s.len() > 0 && s[0] == MINUS;
    let mut mark: usize = from;
    while mark < s.len() && !(s[mark] == 101 || s[mark] == 69)
        invariant
            from <= mark <= s.len(),
            mark_index(s@, from as int) == mark_index(s@, mark as int),
        decreases s.len() - mark,
    {
        mark = mark + 1;
    }
    let m = slice_subrange(s, from, mark);
    assert(m@ == mantissa(s@));
    let p: usize = match read_mantissa(m) {
        Some(p) => p,
        None => {
            return None;
        },
    };
    let exp: i128 = if mark < s.len() {
        match read_exponent(s, mark) {
            Some(exp) => exp,
            None => {
                return None;
            },
        }
    } else {
        0
    };
    assert(is_number(s@));
    assert(exponent_found(s@, exp));
    if negative {
        return if no_digit_but_zero(m) {
            Some(0)
        } else {
            None
        };
    }
    let found: i128 = (p as i128) + exp + (places as i128);
    read_shifted(m, p, found, Ghost(p + exponent_of(s@) + places))
}

} // verus!
