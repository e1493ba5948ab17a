use vstd::prelude::*;

verus! {

/// Ticks that a segment of length one lasts at a tempo of one unit: four
/// beats of sixty seconds each, with the length held in millionths and the
/// tempo in thousandths of a beat per minute.
pub const SEGMENT_FACTOR: u64 = 240_000;

/// Units in a segment length of one: a length is held in millionths.
pub const LENGTH_SCALE: u32 = 1_000_000;

/// Ticks that the part `num / den` of a segment lasts, for a segment of
/// the given length at the given tempo, rounded down to a whole tick.
pub open spec fn span_ticks(num: int, den: int, length: int, bpm: int) -> int {
    (num * SEGMENT_FACTOR * length) / (den * bpm)
}

/// A quotient does not shrink when its fraction grows.
pub proof fn lemma_quotient_monotone(a: int, b: int, c: int, d: int)
    requires
        0 <= a,
        0 <= c,
        0 < b,
        0 < d,
        a * d <= c * b,
    ensures
        a / b <= c / d,
{
    let q = a / b;
    assert(q * b <= a) by (nonlinear_arith)
        requires
            q == a / b,
            0 < b,
            0 <= a,
    ;
    assert(q * d * b <= c * b) by (nonlinear_arith)
        requires
            q * b <= a,
            a * d <= c * b,
            0 < d,
    ;
    assert(q * d <= c) by (nonlinear_arith)
        requires
            q * d * b <= c * b,
            0 < b,
    ;
    assert(q <= c / d) by (nonlinear_arith)
        requires
            q * d <= c,
            0 < d,
    ;
}

/// A greater part of a segment lasts no shorter.
pub proof fn lemma_span_monotone(n1: int, d1: int, n2: int, d2: int, length: int, bpm: int)
    requires
        0 <= n1,
        0 <= n2,
        0 < d1,
        0 < d2,
        n1 * d2 <= n2 * d1,
        0 <= length,
        0 < bpm,
    ensures
        0 <= span_ticks(n1, d1, length, bpm) <= span_ticks(n2, d2, length, bpm),
{
    let k = SEGMENT_FACTOR * length;
    assert(0 <= k) by (nonlinear_arith)
        requires
            k == SEGMENT_FACTOR * length,
            0 <= length,
    ;
    let a = n1 * SEGMENT_FACTOR * length;
    let c = n2 * SEGMENT_FACTOR * length;
    assert(a == n1 * k && c == n2 * k) by (nonlinear_arith)
        requires
            k == SEGMENT_FACTOR * length,
            a == n1 * SEGMENT_FACTOR * length,
            c == n2 * SEGMENT_FACTOR * length,
    ;
    assert(0 <= a && 0 <= c) by (nonlinear_arith)
        requires
            a == n1 * k,
            c == n2 * k,
            0 <= k,
            0 <= n1,
            0 <= n2,
    ;
    let b = d1 * bpm;
    let d = d2 * bpm;
    assert(0 < b && 0 < d) by (nonlinear_arith)
        requires
            b == d1 * bpm,
            d == d2 * bpm,
            0 < d1,
            0 < d2,
            0 < bpm,
    ;
    assert(a * d <= c * b) by (nonlinear_arith)
        requires
            a == n1 * k,
            c == n2 * k,
            b == d1 * bpm,
            d == d2 * bpm,
            n1 * d2 <= n2 * d1,
            0 <= k,
            0 < bpm,
    ;
    lemma_quotient_monotone(a, b, c, d);
    assert(0 <= a / b) by (nonlinear_arith)
        requires
            0 <= a,
            0 < b,
    ;
}

/// The ticks of a part, times the part's denominator, stay within the
/// part's numerator times the ticks of a whole segment at the slowest tempo.
pub proof fn lemma_span_bound(num: int, den: int, length: int, bpm: int)
    requires
        0 <= num,
        0 < den,
        0 <= length,
        0 < bpm,
    ensures
        span_ticks(num, den, length, bpm) * den <= num * (SEGMENT_FACTOR * length),
{
    let a = num * SEGMENT_FACTOR * length;
    let b = den * bpm;
    let q = a / b;
    assert(0 < b) by (nonlinear_arith)
        requires
            b == den * bpm,
            0 < den,
            0 < bpm,
    ;
    assert(0 <= a) by (nonlinear_arith)
        requires
            a == num * SEGMENT_FACTOR * length,
            0 <= num,
            0 <= length,
    ;
    assert(q * b <= a && 0 <= q) by (nonlinear_arith)
        requires
            q == a / b,
            0 < b,
            0 <= a,
    ;
    assert(q * den <= q * b) by (nonlinear_arith)
        requires
            b == den * bpm,
            0 < den,
            1 <= bpm,
            0 <= q,
    ;
    assert(a == num * (SEGMENT_FACTOR * length)) by (nonlinear_arith)
        requires
            a == num * SEGMENT_FACTOR * length,
    ;
}

/// Ticks that the part `num / den` of a segment lasts.
pub fn span(num: u64, den: u64, length: u32, bpm: u32) -> (ticks: u64)
    requires
        num <= den,
        0 < den,
        0 < bpm,
    ensures
        ticks == span_ticks(num as int, den as int, length as int, bpm as int),
        ticks <= SEGMENT_FACTOR * length,
{
    proof {
        lemma_span_bound(num as int, den as int, length as int, bpm as int);
        lemma_span_monotone(0, 1, num as int, den as int, length as int, bpm as int);
        let q = span_ticks(num as int, den as int, length as int, bpm as int);
        let k = SEGMENT_FACTOR * length;
        assert(q <= k) by (nonlinear_arith)
            requires
                q * den <= num * k,
                num <= den,
                0 < den,
                0 <= q,
                0 <= k,
        ;
        assert(num * SEGMENT_FACTOR <= u64::MAX * SEGMENT_FACTOR) by (nonlinear_arith)
            requires
                num <= u64::MAX,
        ;
        assert(num * SEGMENT_FACTOR * length <= u64::MAX * SEGMENT_FACTOR * u32::MAX)
            by (nonlinear_arith)
            requires
                0 <= num * SEGMENT_FACTOR <= u64::MAX * SEGMENT_FACTOR,
                0 <= length <= u32::MAX,
        ;
        assert(0 < den * bpm <= u64::MAX * u32::MAX) by (nonlinear_arith)
            requires
                0 < den <= u64::MAX,
                0 < bpm <= u32::MAX,
        ;
    }
    let top: u128 = (num as u128) * (SEGMENT_FACTOR as u128) * (length as u128);
    let bottom: u128 = (den as u128) * (bpm as u128);
    (top / bottom) as u64
}

} // verus!
