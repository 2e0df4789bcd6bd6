//! Order statistics and moments of a set of latencies, in whole nanoseconds.
//!
//! Every figure is an exact integer: quotients and roots are rounded down,
//! interpolated percentiles are rounded to the nearest nanosecond, halves up.

use crate::order::ascending;
use vstd::arithmetic::div_mod::*;
use vstd::prelude::*;

verus! {

/// The sum of the values of `xs`.
pub open spec fn total(xs: Seq<u64>) -> nat
    decreases xs.len(),
{
    if xs.len() == 0 {
        0
    } else {
        total(xs.drop_last()) + xs.last() as nat
    }
}

/// The sum of the squares of the values of `xs`.
pub open spec fn total_squares(xs: Seq<u64>) -> nat
    decreases xs.len(),
{
    if xs.len() == 0 {
        0
    } else {
        total_squares(xs.drop_last()) + (xs.last() as nat) * (xs.last() as nat)
    }
}

/// The sum of the squared distances of the values of `xs` from `m`.
pub open spec fn total_square_gaps(xs: Seq<u64>, m: int) -> nat
    decreases xs.len(),
{
    if xs.len() == 0 {
        0
    } else {
        total_square_gaps(xs.drop_last(), m) + ((xs.last() - m) * (xs.last() - m)) as nat
    }
}

/// The arithmetic mean of `xs`, rounded down.
pub open spec fn mean_of(xs: Seq<u64>) -> nat
    recommends
        xs.len() > 0,
{
    total(xs) / xs.len()
}

/// The population variance of `xs` (the mean squared distance from the exact
/// mean, with divisor `n`), rounded down.
pub open spec fn variance_of(xs: Seq<u64>) -> nat
    recommends
        xs.len() > 0,
{
    let n = xs.len() as int;
    ((n * total_squares(xs) - total(xs) * total(xs)) / (n * n)) as nat
}

/// Whether `root` is the square root of `x`, rounded down.
pub open spec fn is_floor_sqrt(root: nat, x: nat) -> bool {
    root * root <= x && x < (root + 1) * (root + 1)
}

/// `x / d` rounded to the nearest whole number, halves up.
pub open spec fn round_half_up(x: nat, d: nat) -> nat
    recommends
        d > 0,
{
    (2 * x + d) / (2 * d)
}

/// The median by position: the middle value for an odd count, the mean of
/// the two central values, rounded down, for an even one.
pub open spec fn median_of(times: Seq<u64>) -> nat
    recommends
        times.len() > 0,
{
    let n = times.len() as int;
    if n % 2 == 1 {
        times[n / 2] as nat
    } else {
        ((times[n / 2 - 1] + times[n / 2]) / 2) as nat
    }
}

/// The percentile `num / den` by position, with linear interpolation.
///
/// With `rank = n * num / den`: the first value where `rank < 1`, the value
/// at `floor(rank) - 1` where that is the last one, else the mix of that
/// value and the next, weighted by the fraction of `rank` and rounded to the
/// nearest whole number, halves up.
pub open spec fn percentile_of(times: Seq<u64>, num: nat, den: nat) -> nat
    recommends
        times.len() > 0,
        0 < num <= den,
{
    let n = times.len() as int;
    let whole = (n * num) / (den as int);
    let part = (n * num) % (den as int);
    if whole < 1 {
        times[0] as nat
    } else if whole >= n {
        times[whole - 1] as nat
    } else {
        round_half_up((times[whole - 1] * (den - part) + times[whole] * part) as nat, den)
    }
}

proof fn lemma_total_bound(xs: Seq<u64>)
    ensures
        total(xs) <= xs.len() * u64::MAX,
    decreases xs.len(),
{
    if xs.len() > 0 {
        lemma_total_bound(xs.drop_last());
        assert((xs.len() - 1) * u64::MAX + u64::MAX == xs.len() * u64::MAX) by (nonlinear_arith);
    }
}

/// The sum of all latencies.
pub fn sum_nanos(times: &Vec<u64>) -> (sum: u128)
    ensures
        sum == total(times@),
{
    let mut sum: u128 = 0;
    let mut i: usize = 0;
    while i < times.len()
        invariant
            0 <= i <= times.len(),
            sum == total(times@.subrange(0, i as int)),
        decreases times.len() - i,
    {
        proof {
            let next = times@.subrange(0, i + 1);
            assert(next.drop_last() =~= times@.subrange(0, i as int));
            lemma_total_bound(next);
            assert(next.len() * u64::MAX <= usize::MAX * u64::MAX) by (nonlinear_arith)
                requires
                    next.len() <= usize::MAX,
            ;
            assert(usize::MAX * u64::MAX < u128::MAX) by (nonlinear_arith);
        }
        sum = sum + times[i] as u128;
        i = i + 1;
    }
    assert(times@.subrange(0, i as int) =~= times@);
    sum
}

/// The mean latency, rounded down to a whole nanosecond.
pub fn mean_nanos(times: &Vec<u64>) -> (mean: u64)
    requires
        times.len() > 0,
    ensures
        mean == mean_of(times@),
{
    let sum = sum_nanos(times);
    let n = times.len() as u128;
    proof {
        lemma_total_bound(times@);
        assert(sum / n <= u64::MAX) by (nonlinear_arith)
            requires
                sum <= n * u64::MAX,
                n > 0,
        ;
    }
    (sum / n) as u64
}

/// The median of latencies that stand in ascending order.
pub fn get_median(times: &Vec<u64>) -> (median: u64)
    requires
        times.len() > 0,
    ensures
        median == median_of(times@),
{
    let n = times.len();
    if n % 2 == 1 {
        return times[n / 2];
    }
    let left = times[n / 2 - 1] as u128;
    let right = times[n / 2] as u128;
    ((left + right) / 2) as u64
}

/// The percentile `num / den` of latencies that stand in ascending order.
pub fn get_nth_percentile(times: &Vec<u64>, num: u64, den: u64) -> (value: u64)
    requires
        times.len() > 0,
        0 < num <= den,
    ensures
        value == percentile_of(times@, num as nat, den as nat),
{
    let n = times.len();
    proof {
        assert(n * num <= usize::MAX * u64::MAX) by (nonlinear_arith)
            requires
                n <= usize::MAX,
                num <= u64::MAX,
        ;
        assert(usize::MAX * u64::MAX < u128::MAX) by (nonlinear_arith);
    }
    let rank: u128 = n as u128 * num as u128;
    let whole: u128 = rank / den as u128;
    let part: u128 = rank % den as u128;
    proof {
        assert(whole <= n) by (nonlinear_arith)
            requires
                whole == rank / (den as u128),
                rank == n * num,
                num <= den,
                den > 0,
        ;
    }
    if whole < 1 {
        return times[0];
    }
    let idx: usize = (whole - 1) as usize;
    if whole >= n as u128 {
        return times[idx];
    }
    let a: u128 = times[idx] as u128;
    let b: u128 = times[idx + 1] as u128;
    let wa: u128 = den as u128 - part;
    proof {
        lemma_mix_bound(a as nat, b as nat, wa as nat, part as nat, den as nat);
    }
    let mix: u128 = a * wa + b * part;
    let q: u128 = mix / den as u128;
    let r: u128 = mix % den as u128;
    proof {
        lemma_round_half_up(mix as nat, den as nat);
        lemma_fundamental_div_mod(mix as int, den as int);
    }
    if 2 * r >= den as u128 {
        proof {
            assert(q < u64::MAX) by (nonlinear_arith)
                requires
                    mix == den * q + r,
                    2 * r >= den,
                    den > 0,
                    mix <= u64::MAX * den,
            ;
        }
        (q + 1) as u64
    } else {
        proof {
            assert(q <= u64::MAX) by (nonlinear_arith)
                requires
                    mix == den * q + r,
                    r >= 0,
                    den > 0,
                    mix <= u64::MAX * den,
            ;
        }
        q as u64
    }
}

/// A weighted mix of two latencies stays within the weight times the largest
/// latency.
proof fn lemma_mix_bound(a: nat, b: nat, wa: nat, wb: nat, den: nat)
    requires
        a <= u64::MAX,
        b <= u64::MAX,
        wa + wb == den,
        den <= u64::MAX,
    ensures
        a * wa + b * wb <= u64::MAX * den,
        a * wa <= u128::MAX,
        b * wb <= u128::MAX,
        a * wa + b * wb <= u128::MAX,
{
    assert(a * wa <= u64::MAX * wa) by (nonlinear_arith)
        requires
            a <= u64::MAX,
    ;
    assert(b * wb <= u64::MAX * wb) by (nonlinear_arith)
        requires
            b <= u64::MAX,
    ;
    assert(u64::MAX * wa + u64::MAX * wb == u64::MAX * den) by (nonlinear_arith)
        requires
            wa + wb == den,
    ;
    assert(u64::MAX * den <= u64::MAX * u64::MAX) by (nonlinear_arith)
        requires
            den <= u64::MAX,
    ;
    assert(u64::MAX * u64::MAX < u128::MAX) by (nonlinear_arith);
}

/// Rounding halves up is the quotient, plus one where twice the remainder
/// reaches the divisor.
pub proof fn lemma_round_half_up(x: nat, d: nat)
    requires
        d > 0,
    ensures
        round_half_up(x, d) == x / d + if 2 * (x % d) >= d {
            1int
        } else {
            0int
        },
{
    let q = x / d;
    let r = x % d;
    lemma_fundamental_div_mod(x as int, d as int);
    if 2 * r >= d {
        assert(2 * x + d == (q + 1) * (2 * d) + (2 * r - d)) by (nonlinear_arith)
            requires
                x == d * q + r,
        ;
        lemma_fundamental_div_mod_converse((2 * x + d) as int, (2 * d) as int, (q + 1) as int, 2 * r - d);
    } else {
        assert(2 * x + d == q * (2 * d) + (2 * r + d)) by (nonlinear_arith)
            requires
                x == d * q + r,
        ;
        lemma_fundamental_div_mod_converse((2 * x + d) as int, (2 * d) as int, q as int, (2 * r + d) as int);
    }
}

/// The square root of `x`, rounded down.
pub fn floor_sqrt(x: u128) -> (root: u64)
    ensures
        is_floor_sqrt(root as nat, x as nat),
{
    let mut lo: u128 = 0;
    let mut hi: u128 = 0x1_0000_0000_0000_0000;
    proof {
        assert(x < 0x1_0000_0000_0000_0000 * 0x1_0000_0000_0000_0000) by (nonlinear_arith)
            requires
                x <= u128::MAX,
        ;
    }
    while hi - lo > 1
        invariant
            lo < hi <= 0x1_0000_0000_0000_0000,
            lo * lo <= x,
            x < hi * hi,
        decreases hi - lo,
    {
        let mid: u128 = lo + (hi - lo) / 2;
        proof {
            assert(mid * mid <= u128::MAX) by (nonlinear_arith)
                requires
                    mid <= 0xFFFF_FFFF_FFFF_FFFF,
            ;
        }
        if mid * mid <= x {
            lo = mid;
        } else {
            hi = mid;
        }
    }
    lo as u64
}

/// The squared distances from `m` sum to the squares, less twice `m` times
/// the sum, plus `m * m` for each value.
proof fn lemma_square_gaps_expand(xs: Seq<u64>, m: int)
    ensures
        total_square_gaps(xs, m) == total_squares(xs) - 2 * m * total(xs) + xs.len() * (m * m),
    decreases xs.len(),
{
    if xs.len() > 0 {
        let rest = xs.drop_last();
        let x = xs.last() as int;
        lemma_square_gaps_expand(rest, m);
        let a = total_squares(rest) as int;
        let b = total(rest) as int;
        let k = rest.len() as int;
        let mm = m * m;
        let xx = x * x;
        let mx = m * x;
        let mb = m * b;
        let gap = (x - m) * (x - m);
        assert(gap >= 0 && gap == xx - 2 * mx + mm) by (nonlinear_arith)
            requires
                gap == (x - m) * (x - m),
                mm == m * m,
                xx == x * x,
                mx == m * x,
        ;
        assert(2 * m * (b + x) == 2 * mb + 2 * mx) by (nonlinear_arith)
            requires
                mb == m * b,
                mx == m * x,
        ;
        assert(2 * m * b == 2 * mb) by (nonlinear_arith)
            requires
                mb == m * b,
        ;
        assert((k + 1) * mm == k * mm + mm) by (nonlinear_arith);
        assert(total_squares(xs) == a + xx);
        assert(total(xs) == b + x);
        assert(xs.len() == k + 1);
        assert(total_square_gaps(rest, m) == a - 2 * mb + k * mm);
        assert(total_square_gaps(xs, m) == total_square_gaps(rest, m) + gap);
        assert(2 * m * total(xs) == 2 * mb + 2 * mx);
        assert(xs.len() * (m * m) == k * mm + mm);
    } else {
        assert(2 * m * total(xs) == 0 && xs.len() * (m * m) == 0) by (nonlinear_arith)
            requires
                total(xs) == 0,
                xs.len() == 0,
        ;
    }
}

/// The squared distances from `m` sum to at least the distance of the sum
/// from `m` taken once for each value.
proof fn lemma_square_gaps_floor(xs: Seq<u64>, m: int)
    ensures
        total_square_gaps(xs, m) >= total(xs) - xs.len() * m,
        total_square_gaps(xs, m) >= xs.len() * m - total(xs),
    decreases xs.len(),
{
    if xs.len() > 0 {
        let rest = xs.drop_last();
        let x = xs.last() as int;
        lemma_square_gaps_floor(rest, m);
        assert((x - m) * (x - m) >= x - m && (x - m) * (x - m) >= m - x) by (nonlinear_arith);
        assert(xs.len() * m == rest.len() * m + m) by (nonlinear_arith)
            requires
                xs.len() == rest.len() + 1,
        ;
    }
}

/// Each squared distance between two latencies fits in 128 bits, and so does
/// their mean over any count.
proof fn lemma_square_gaps_bound(xs: Seq<u64>, m: int)
    requires
        0 <= m <= u64::MAX,
    ensures
        total_square_gaps(xs, m) <= xs.len() * (u64::MAX * u64::MAX),
    decreases xs.len(),
{
    if xs.len() > 0 {
        let rest = xs.drop_last();
        let x = xs.last() as int;
        lemma_square_gaps_bound(rest, m);
        let k = rest.len() as int;
        let cap = u64::MAX * u64::MAX;
        assert((x - m) * (x - m) <= cap && (x - m) * (x - m) >= 0) by (nonlinear_arith)
            requires
                0 <= x <= u64::MAX,
                0 <= m <= u64::MAX,
                cap == u64::MAX * u64::MAX,
        ;
        assert((k + 1) * cap == k * cap + cap) by (nonlinear_arith);
        assert(xs.len() == k + 1);
    }
}

/// The variance, rounded down, from the quotient `q` and remainder `t` of
/// the summed squared distances from the rounded mean `m`, and the remainder
/// `r` of that mean.
proof fn lemma_variance_from_gaps(xs: Seq<u64>, m: int, r: int, q: int, t: int)
    requires
        xs.len() > 0,
        total(xs) == xs.len() * m + r,
        0 <= r < xs.len(),
        total_square_gaps(xs, m) == q * xs.len() + t,
        0 <= t < xs.len(),
    ensures
        t * xs.len() >= r * r ==> variance_of(xs) == q,
        t * xs.len() < r * r ==> q >= 1 && variance_of(xs) == q - 1,
{
    let n = xs.len() as int;
    let s = total(xs) as int;
    let sq = total_squares(xs) as int;
    let g = total_square_gaps(xs, m) as int;
    lemma_square_gaps_expand(xs, m);
    lemma_square_gaps_floor(xs, m);
    let top = n * sq - s * s;
    let p = n * m;
    let pp = p * p;
    let pr = p * r;
    let ps = p * s;
    let rr = r * r;
    let ss = s * s;
    assert(n * g == n * sq - 2 * ps + pp) by (nonlinear_arith)
        requires
            g == sq - 2 * m * s + n * (m * m),
            p == n * m,
            pp == p * p,
            ps == p * s,
    ;
    assert(ss == pp + 2 * pr + rr && ps == pp + pr) by (nonlinear_arith)
        requires
            s == p + r,
            pp == p * p,
            pr == p * r,
            ps == p * s,
            rr == r * r,
            ss == s * s,
    ;
    assert(top == n * g - r * r);
    assert(top == q * (n * n) + (t * n - r * r)) by (nonlinear_arith)
        requires
            top == n * g - r * r,
            g == q * n + t,
    ;
    assert(r * r < n * n && t * n < n * n && r * r <= n * r) by (nonlinear_arith)
        requires
            0 <= r < n,
            0 <= t < n,
    ;
    assert(n * g >= n * r) by (nonlinear_arith)
        requires
            g >= r,
            n > 0,
    ;
    assert(n * n > 0) by (nonlinear_arith)
        requires
            n > 0,
    ;
    if t * n >= r * r {
        lemma_fundamental_div_mod_converse(top, n * n, q, t * n - r * r);
    } else {
        assert(top == (q - 1) * (n * n) + (n * n + t * n - r * r)) by (nonlinear_arith)
            requires
                top == q * (n * n) + (t * n - r * r),
        ;
        lemma_fundamental_div_mod_converse(top, n * n, q - 1, n * n + t * n - r * r);
        assert(q >= 1) by (nonlinear_arith)
            requires
                top >= 0,
                top == (q - 1) * (n * n) + (n * n + t * n - r * r),
                n * n + t * n - r * r < n * n,
                n * n > 0,
        ;
    }
}

/// The population standard deviation, rounded down to a whole nanosecond:
/// the root of the variance taken about the exact mean, with divisor `n`.
pub fn std_dev_nanos(times: &Vec<u64>) -> (dev: u64)
    requires
        times.len() > 0,
    ensures
        is_floor_sqrt(dev as nat, variance_of(times@)),
{
    let n: u128 = times.len() as u128;
    let sum = sum_nanos(times);
    let m: u64 = mean_nanos(times);
    let r: u128 = sum % n;
    proof {
        lemma_fundamental_div_mod(sum as int, n as int);
        assert(n * (m as int) == (m as int) * n) by (nonlinear_arith);
    }
    let mut q: u128 = 0;
    let mut t: u128 = 0;
    let mut i: usize = 0;
    proof {
        assert(times@.subrange(0, 0) =~= Seq::<u64>::empty());
    }
    while i < times.len()
        invariant
            0 <= i <= times.len(),
            n == times.len(),
            n > 0,
            0 <= t < n,
            total_square_gaps(times@.subrange(0, i as int), m as int) == q * n + t,
        decreases times.len() - i,
    {
        let x: u64 = times[i];
        let gap: u128 = if x >= m {
            (x - m) as u128
        } else {
            (m - x) as u128
        };
        proof {
            assert(gap * gap <= u64::MAX * u64::MAX) by (nonlinear_arith)
                requires
                    0 <= gap <= u64::MAX,
            ;
            assert(u64::MAX * u64::MAX < u128::MAX) by (nonlinear_arith);
            assert(gap * gap == (x - m) * (x - m)) by (nonlinear_arith)
                requires
                    gap == x - m || gap == m - x,
            ;
        }
        let square: u128 = gap * gap;
        let qe: u128 = square / n;
        let te: u128 = square % n;
        let carry: u128 = if t + te >= n {
            1
        } else {
            0
        };
        let t_next: u128 = t + te - carry * n;
        proof {
            let next = times@.subrange(0, i + 1);
            assert(next.drop_last() =~= times@.subrange(0, i as int));
            lemma_fundamental_div_mod(square as int, n as int);
            assert(total_square_gaps(next, m as int) == (q + qe + carry) * n + t_next)
                by (nonlinear_arith)
                requires
                    total_square_gaps(next, m as int) == q * n + t + square,
                    square == n * qe + te,
                    t_next == t + te - carry * n,
            ;
            lemma_square_gaps_bound(next, m as int);
            assert(next.len() * (u64::MAX * u64::MAX) <= n * (u64::MAX * u64::MAX))
                by (nonlinear_arith)
                requires
                    next.len() <= n,
            ;
            assert(q + qe + carry <= u64::MAX * u64::MAX) by (nonlinear_arith)
                requires
                    (q + qe + carry) * n + t_next <= n * (u64::MAX * u64::MAX),
                    t_next >= 0,
                    n > 0,
            ;
        }
        q = q + qe + carry;
        t = t_next;
        i = i + 1;
    }
    proof {
        assert(times@.subrange(0, i as int) =~= times@);
        assert(t * n <= u128::MAX && r * r <= u128::MAX) by (nonlinear_arith)
            requires
                0 <= t < n,
                0 <= r < n,
                n <= u64::MAX,
        ;
        lemma_variance_from_gaps(times@, m as int, r as int, q as int, t as int);
    }
    if t * n >= r * r {
        floor_sqrt(q)
    } else {
        floor_sqrt(q - 1)
    }
}

/// Whole multiples of the divisor pass through rounding unchanged.
pub proof fn lemma_round_shift(a: nat, x: nat, d: nat)
    requires
        d > 0,
    ensures
        round_half_up(a * d + x, d) == a + round_half_up(x, d),
{
    let top = 2 * x + d;
    let q = top / (2 * d);
    let r = top % (2 * d);
    lemma_fundamental_div_mod(top as int, (2 * d) as int);
    assert(2 * (a * d + x) + d == (a + q) * (2 * d) + r) by (nonlinear_arith)
        requires
            2 * x + d == (2 * d) * q + r,
    ;
    lemma_fundamental_div_mod_converse(
        (2 * (a * d + x) + d) as int,
        (2 * d) as int,
        (a + q) as int,
        r as int,
    );
}

/// A whole number whose multiple of `d` is at most `y` is at most `y / d`.
proof fn lemma_floor_at_least(k: int, y: int, d: int)
    requires
        d > 0,
        k * d <= y,
    ensures
        k <= y / d,
{
    lemma_fundamental_div_mod(y, d);
    let q = y / d;
    let r = y % d;
    if k > q {
        assert(k * d >= (q + 1) * d) by (nonlinear_arith)
            requires
                k >= q + 1,
                d > 0,
        ;
        assert((q + 1) * d == d * q + d) by (nonlinear_arith);
    }
}

/// Rounding keeps the order of quotients: where `xa / da <= xb / db`, the
/// first rounds to no more than the second.
pub proof fn lemma_round_keeps_order(xa: nat, da: nat, xb: nat, db: nat)
    requires
        da > 0,
        db > 0,
        xa * db <= xb * da,
    ensures
        round_half_up(xa, da) <= round_half_up(xb, db),
{
    let k = round_half_up(xa, da) as int;
    lemma_fundamental_div_mod((2 * xa + da) as int, (2 * da) as int);
    assert(k * (2 * da) <= 2 * xa + da) by (nonlinear_arith)
        requires
            2 * xa + da == (2 * da) * k + (2 * xa + da) % (2 * da),
            (2 * xa + da) % (2 * da) >= 0,
    ;
    let x1d2 = xa * db;
    let x2d1 = xb * da;
    assert((k * (2 * db)) * da <= (2 * xb + db) * da) by (nonlinear_arith)
        requires
            k * (2 * da) <= 2 * xa + da,
            x1d2 == xa * db,
            x2d1 == xb * da,
            x1d2 <= x2d1,
            da > 0,
            db > 0,
    ;
    assert(k * (2 * db) <= 2 * xb + db) by (nonlinear_arith)
        requires
            (k * (2 * db)) * da <= (2 * xb + db) * da,
            da > 0,
    ;
    lemma_floor_at_least(k, (2 * xb + db) as int, (2 * db) as int);
}

/// A whole number comes through rounding as it is.
pub proof fn lemma_round_whole(a: nat, d: nat)
    requires
        d > 0,
    ensures
        round_half_up(a * d, d) == a,
{
    lemma_round_shift(a, 0, d);
    lemma_fundamental_div_mod_converse(d as int, (2 * d) as int, 0, d as int);
}

/// A mix of two values with weights that sum to `den` rounds to a value
/// between the two.
pub proof fn lemma_mix_between(a: nat, b: nat, part: nat, den: nat)
    requires
        a <= b,
        part <= den,
        den > 0,
    ensures
        a <= round_half_up((a * (den - part) + b * part) as nat, den) <= b,
{
    let mix = a * (den - part) + b * part;
    assert(a * den <= mix <= b * den) by (nonlinear_arith)
        requires
            mix == a * (den - part) + b * part,
            a <= b,
            0 <= part <= den,
    ;
    assert((a * den) * den <= mix * den && mix * den <= (b * den) * den) by (nonlinear_arith)
        requires
            a * den <= mix <= b * den,
            den > 0,
    ;
    lemma_round_keeps_order(a * den, den, mix as nat, den);
    lemma_round_keeps_order(mix as nat, den, b * den, den);
    lemma_round_whole(a, den);
    lemma_round_whole(b, den);
}

/// The whole part of the rank `n * num / den` is at most `n`, and grows
/// with the percentile.
proof fn lemma_rank_order(n: int, a1: int, b1: int, a2: int, b2: int)
    requires
        n > 0,
        0 < a1 <= b1,
        0 < a2 <= b2,
        a1 * b2 <= a2 * b1,
    ensures
        0 <= (n * a1) / b1 <= (n * a2) / b2 <= n,
        (n * a1) * b2 <= (n * a2) * b1,
{
    let r1 = n * a1;
    let r2 = n * a2;
    let w1 = r1 / b1;
    let w2 = r2 / b2;
    lemma_fundamental_div_mod(r1, b1);
    lemma_fundamental_div_mod(r2, b2);
    assert(r1 >= 0 && r2 >= 0 && r2 <= n * b2) by (nonlinear_arith)
        requires
            r1 == n * a1,
            r2 == n * a2,
            n > 0,
            a1 > 0,
            0 < a2 <= b2,
    ;
    assert(r1 * b2 <= r2 * b1) by (nonlinear_arith)
        requires
            r1 == n * a1,
            r2 == n * a2,
            a1 * b2 <= a2 * b1,
            n > 0,
    ;
    assert(w1 >= 0) by (nonlinear_arith)
        requires
            r1 == b1 * w1 + r1 % b1,
            r1 >= 0,
            0 <= r1 % b1 < b1,
    ;
    assert(w2 <= n) by (nonlinear_arith)
        requires
            r2 == b2 * w2 + r2 % b2,
            r2 <= n * b2,
            0 <= r2 % b2,
            b2 > 0,
    ;
    assert((w1 * b2) * b1 <= r2 * b1) by (nonlinear_arith)
        requires
            r1 == b1 * w1 + r1 % b1,
            0 <= r1 % b1,
            r1 * b2 <= r2 * b1,
            b2 > 0,
    ;
    assert(w1 * b2 <= r2) by (nonlinear_arith)
        requires
            (w1 * b2) * b1 <= r2 * b1,
            b1 > 0,
    ;
    lemma_floor_at_least(w1, r2, b2);
}

/// A percentile of values in ascending order lies between the value just
/// below its rank and the value at its rank.
proof fn lemma_percentile_between(times: Seq<u64>, num: nat, den: nat)
    requires
        ascending(times),
        times.len() > 0,
        0 < num <= den,
    ensures
        ({
            let n = times.len() as int;
            let whole = (n * num) / (den as int);
            &&& 0 <= whole <= n
            &&& whole < 1 ==> percentile_of(times, num, den) == times[0]
            &&& whole >= 1 ==> times[whole - 1] <= percentile_of(times, num, den)
            &&& 1 <= whole < n ==> percentile_of(times, num, den) <= times[whole]
            &&& whole == n ==> percentile_of(times, num, den) == times[n - 1]
        }),
{
    let n = times.len() as int;
    lemma_rank_order(n, num as int, den as int, num as int, den as int);
    let whole = (n * num) / (den as int);
    let part = (n * num) % (den as int);
    lemma_fundamental_div_mod(n * num, den as int);
    if 1 <= whole < n {
        lemma_mix_between(times[whole - 1] as nat, times[whole] as nat, part as nat, den);
    }
}

/// A percentile of values in ascending order is at least the smallest and
/// at most the largest of them.
pub proof fn lemma_percentile_bounds(times: Seq<u64>, num: nat, den: nat)
    requires
        ascending(times),
        times.len() > 0,
        0 < num <= den,
    ensures
        times.first() <= percentile_of(times, num, den) <= times.last(),
{
    lemma_percentile_between(times, num, den);
}

/// The percentile at the full fraction is the last value: the largest,
/// where the values stand in ascending order.
pub proof fn lemma_percentile_full(times: Seq<u64>, den: nat)
    requires
        times.len() > 0,
        den > 0,
    ensures
        percentile_of(times, den, den) == times.last(),
        ascending(times) ==> forall|i: int|
            0 <= i < times.len() ==> #[trigger] times[i] <= percentile_of(times, den, den),
{
    let n = times.len() as int;
    lemma_fundamental_div_mod_converse(n * den, den as int, n, 0);
}

/// Over values in ascending order the percentile does not go down as the
/// fraction `num / den` goes up.
pub proof fn lemma_percentile_monotonic(times: Seq<u64>, a1: nat, b1: nat, a2: nat, b2: nat)
    requires
        ascending(times),
        times.len() > 0,
        0 < a1 <= b1,
        0 < a2 <= b2,
        a1 * b2 <= a2 * b1,
    ensures
        percentile_of(times, a1, b1) <= percentile_of(times, a2, b2),
{
    let n = times.len() as int;
    lemma_rank_order(n, a1 as int, b1 as int, a2 as int, b2 as int);
    lemma_percentile_between(times, a1, b1);
    lemma_percentile_between(times, a2, b2);
    let r1 = n * a1;
    let r2 = n * a2;
    let w1 = r1 / (b1 as int);
    let w2 = r2 / (b2 as int);
    let part_low = r1 % (b1 as int);
    let part_high = r2 % (b2 as int);
    if 1 <= w1 && w1 == w2 && w2 < n {
        let lo = times[w1 - 1] as nat;
        let hi = times[w1] as nat;
        lemma_fundamental_div_mod(r1, b1 as int);
        lemma_fundamental_div_mod(r2, b2 as int);
        let xa = lo * (b1 - part_low) + hi * part_low;
        let xb = lo * (b2 - part_high) + hi * part_high;
        let cross_low = part_low * b2;
        let cross_high = part_high * b1;
        assert(cross_low <= cross_high) by (nonlinear_arith)
            requires
                r1 == b1 * w1 + part_low,
                r2 == b2 * w1 + part_high,
                r1 * b2 <= r2 * b1,
                cross_low == part_low * b2,
                cross_high == part_high * b1,
        ;
        let gap = hi - lo;
        assert(xa * b2 == lo * (b1 * b2) + gap * cross_low) by (nonlinear_arith)
            requires
                xa == lo * (b1 - part_low) + hi * part_low,
                gap == hi - lo,
                cross_low == part_low * b2,
        ;
        assert(xb * b1 == lo * (b1 * b2) + gap * cross_high) by (nonlinear_arith)
            requires
                xb == lo * (b2 - part_high) + hi * part_high,
                gap == hi - lo,
                cross_high == part_high * b1,
        ;
        assert(gap * cross_low <= gap * cross_high) by (nonlinear_arith)
            requires
                gap >= 0,
                cross_low <= cross_high,
        ;
        assert(xa >= 0 && xb >= 0) by (nonlinear_arith)
            requires
                xa == lo * (b1 - part_low) + hi * part_low,
                xb == lo * (b2 - part_high) + hi * part_high,
                0 <= part_low < b1,
                0 <= part_high < b2,
        ;
        lemma_round_keeps_order(xa as nat, b1, xb as nat, b2);
    }
}

} // verus!
