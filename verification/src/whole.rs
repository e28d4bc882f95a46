//! Floating-point numbers that are integers, and compensated sums of them.
//!
//! A sum of integers that is too large for a floating-point number is rounded, but what rounding takes
//! is an integer too, and a [`KahanSum`] keeps it. As long as what it keeps is not itself too large, the
//! two parts of the sum add up to the exact integer, in whatever order and in whatever parts the
//! integers were added.

use crate::combine;
use crate::combine::KahanSum;
use crate::float;
use crate::float::{magnitude_of, whole_limit, Float, COARSE, INFINITE, STEP};
use vstd::arithmetic::power2::*;
use vstd::prelude::*;

verus! {

/// The value of 1, in units of the smallest positive number.
pub open spec fn one() -> nat {
    pow2(1074)
}

/// The number is the integer `i`, zero taken as positive.
pub open spec fn is_whole(f: Float, i: int) -> bool {
    f.mag() < INFINITE && f.units() == i * one() && (i == 0 ==> !f.negative())
}

/// `x` is `c` steps of 2 to the power `k`.
spec fn steps(x: int, k: nat, c: int) -> bool {
    x == c * pow2(k)
}

spec fn multiple(x: int, k: nat) -> bool {
    exists|c: int| steps(x, k, c)
}

/// `x` is so few steps of 2 to the power `k` that it is a number.
spec fn fine(x: int, k: nat) -> bool {
    multiple(x, k) && magnitude_of(x) <= whole_limit() * pow2(k)
}

/// `x` is a number whose last place is 2 to the power `k`.
spec fn placed(x: int, k: nat) -> bool {
    fine(x, k) && (k == 0 || magnitude_of(x) >= STEP * pow2(k))
}

/// No number is nearer to `n` than `s`.
spec fn nearest(n: int, s: int) -> bool {
    forall|y: int, k: nat| #[trigger] fine(y, k) && k <= 64 ==> magnitude_of(n - s) <= magnitude_of(n - y)
}

proof fn lemma_coarser(x: int, k: nat, up: nat)
    requires
        multiple(x, up),
        k <= up,
    ensures
        multiple(x, k),
        pow2(k) <= pow2(up),
        k < up ==> 2 * pow2(k) <= pow2(up),
{
    let c = choose|c: int| steps(x, up, c);
    let d = (up - k) as nat;
    lemma_pow2_adds(d, k);
    lemma_pow2_pos(d);
    lemma_pow2_pos(k);
    assert(c * (pow2(d) * pow2(k)) == (c * pow2(d)) * pow2(k)) by (nonlinear_arith);
    assert(steps(x, k, c * pow2(d)));
    assert(pow2(d) * pow2(k) >= pow2(k)) by (nonlinear_arith)
        requires
            pow2(d) >= 1,
    ;
    if k < up {
        lemma_pow2_unfold(d);
        lemma_pow2_pos((d - 1) as nat);
        assert(pow2(d) * pow2(k) >= 2 * pow2(k)) by (nonlinear_arith)
            requires
                pow2(d) >= 2,
        ;
    }
}

proof fn lemma_multiples(x: int, y: int, k: nat)
    requires
        multiple(x, k),
        multiple(y, k),
    ensures
        multiple(x - y, k),
        multiple(x + y, k),
        multiple(-x, k),
{
    let c = choose|c: int| steps(x, k, c);
    let d = choose|d: int| steps(y, k, d);
    assert(c * pow2(k) - d * pow2(k) == (c - d) * pow2(k)) by (nonlinear_arith);
    assert(c * pow2(k) + d * pow2(k) == (c + d) * pow2(k)) by (nonlinear_arith);
    assert(-(c * pow2(k)) == (-c) * pow2(k)) by (nonlinear_arith);
    assert(steps(x - y, k, c - d));
    assert(steps(x + y, k, c + d));
    assert(steps(-x, k, -c));
}

proof fn lemma_fine_integer(x: int)
    requires
        magnitude_of(x) <= whole_limit(),
    ensures
        fine(x, 0),
{
    lemma2_to64();
    assert(steps(x, 0, x));
}

/// The difference of a number and the one nearest to its sum with a number that is no larger is a
/// number.
proof fn lemma_difference(i: int, j: int, s: int, ki: nat, kj: nat, ks: nat)
    requires
        i > 0,
        magnitude_of(j) <= i,
        placed(i, ki),
        placed(j, kj),
        placed(s, ks),
        ki <= 60,
        kj <= 60,
        ks <= 60,
        nearest(i + j, s),
    ensures
        fine(i - s, ki) || fine(i - s, kj) || fine(i - s, ks),
{
    let n = i + j;
    lemma_pow2_pos(ki);
    lemma_pow2_pos(kj);
    lemma_pow2_pos(ks);
    assert(fine(i, ki));
    assert(fine(j, kj));
    lemma_multiples(j, j, kj);
    assert(fine(-j, kj));
    if j >= 0 {
        let c = choose|c: int| steps(i, ki, c);
        lemma_pow2_unfold(ki + 1);
        assert(steps(2 * i, ki + 1, c)) by (nonlinear_arith)
            requires
                i == c * pow2(ki),
                pow2(ki + 1) == 2 * pow2(ki),
                steps(2 * i, ki + 1, c) <==> 2 * i == c * pow2(ki + 1),
        ;
        assert(magnitude_of(2 * i) <= whole_limit() * pow2(ki + 1));
        assert(fine(2 * i, ki + 1));
        assert(i <= s <= 2 * i);
        if ks < ki {
            lemma_coarser(i, ks, ki);
            assert(s == i);
            assert(steps(0, ki, 0));
            assert(fine(i - s, ki));
        } else {
            lemma_coarser(s, ki, ks);
            lemma_multiples(i, s, ki);
            assert(fine(i - s, ki));
        }
    } else if 2 * n >= i {
        assert(s <= i);
        if ki == 0 {
            lemma2_to64();
            lemma_fine_integer(n);
            assert(fine(n, 0));
            assert(s == n);
        } else {
            let c = choose|c: int| steps(i, ki, c);
            let h = c * pow2((ki - 1) as nat);
            lemma_pow2_unfold(ki);
            lemma_pow2_pos((ki - 1) as nat);
            assert(2 * h == i) by (nonlinear_arith)
                requires
                    i == c * pow2(ki),
                    pow2(ki) == 2 * pow2((ki - 1) as nat),
                    h == c * pow2((ki - 1) as nat),
            ;
            assert(steps(h, (ki - 1) as nat, c));
            assert(fine(h, (ki - 1) as nat));
            assert(h <= s);
            if ks <= ki {
                lemma_coarser(i, ks, ki);
                lemma_multiples(i, s, ks);
                assert(fine(i - s, ks));
            } else {
                lemma_coarser(s, ki, ks);
                lemma_multiples(i, s, ki);
                assert(fine(i - s, ki));
            }
        }
    } else {
        if ki < kj {
            lemma_coarser(j, ki, kj);
            assert(i == -j);
        } else {
            lemma_coarser(i, kj, ki);
            lemma_multiples(i, j, kj);
        }
        if n == 0 {
            assert(steps(0, kj, 0));
        }
        assert(fine(n, kj));
        assert(s == n);
    }
}

proof fn lemma_nearest_opposite(n: int, s: int)
    requires
        nearest(n, s),
    ensures
        nearest(-n, -s),
{
    assert forall|y: int, k: nat| #[trigger] fine(y, k) && k <= 64 implies magnitude_of(-n - -s)
        <= magnitude_of(-n - y) by {
        lemma_multiples(y, y, k);
        assert(fine(-y, k));
    }
}

/// Rounding takes at most so small a part of an integer, and nothing of one that is not too large.
proof fn lemma_error(n: int, s: int)
    requires
        nearest(n, s),
        magnitude_of(n) <= pow2(106),
    ensures
        magnitude_of(n - s) * whole_limit() <= magnitude_of(n),
        magnitude_of(n) <= whole_limit() ==> s == n,
    decreases
            if n < 0 {
                1int
            } else {
                0int
            },
{
    if magnitude_of(n) <= whole_limit() {
        lemma_fine_integer(n);
        assert(fine(n, 0));
        assert(0 * whole_limit() == 0);
    } else if n < 0 {
        lemma_nearest_opposite(n, s);
        lemma_error(-n, -s);
    } else {
        lemma2_to64();
        lemma2_to64_rest();
        float::lemma_length(n as nat);
        let l = choose|l: nat| l > 0 && #[trigger] pow2((l - 1) as nat) <= n < pow2(l);
        if l < 53 {
            lemma_pow2_strictly_increases(l, 53);
        }
        if l > 107 {
            lemma_pow2_strictly_increases(106, (l - 1) as nat);
        }
        let k = (l - 53) as nat;
        let p = pow2(k) as int;
        lemma_pow2_pos(k);
        lemma_pow2_adds(53, k);
        let c = n / p;
        let r = n % p;
        assert(n == c * p + r && 0 <= r < p) by (nonlinear_arith)
            requires
                c == n / p,
                r == n % p,
                p > 0,
        ;
        assert(c < whole_limit()) by (nonlinear_arith)
            requires
                n == c * p + r,
                r >= 0,
                n < whole_limit() * p,
                p > 0,
        ;
        assert(c >= 0) by (nonlinear_arith)
            requires
                n == c * p + r,
                r < p,
                n >= 0,
                p > 0,
        ;
        assert((c + 1) * p == c * p + p) by (nonlinear_arith);
        assert(steps(c * p, k, c));
        assert(steps((c + 1) * p, k, c + 1));
        assert((c + 1) * p <= whole_limit() * p) by (nonlinear_arith)
            requires
                c + 1 <= whole_limit(),
                p > 0,
        ;
        assert(c * p >= 0) by (nonlinear_arith)
            requires
                c >= 0,
                p > 0,
        ;
        assert(fine(c * p, k));
        assert(fine((c + 1) * p, k));
        assert(2 * magnitude_of(n - s) <= p);
        lemma_pow2_unfold(k);
        lemma_pow2_adds(53, (k - 1) as nat);
        assert((53 + (k - 1) as nat) as nat == (l - 1) as nat);
        let e = magnitude_of(n - s);
        assert(e * whole_limit() <= whole_limit() * pow2((k - 1) as nat)) by (nonlinear_arith)
            requires
                e <= pow2((k - 1) as nat),
        ;
    }
}

/// So few steps are a number.
proof fn lemma_fine_number(x: int, k: nat) -> (m: nat)
    requires
        fine(x, k),
        k <= 64,
    ensures
        m < INFINITE,
        float::mag_units(m) == magnitude_of(x) * one(),
{
    let c = choose|c: int| steps(x, k, c);
    let p = pow2(k);
    lemma_pow2_pos(k);
    float::lemma_magnitude_times(c, p);
    let d = magnitude_of(c);
    assert(d <= whole_limit()) by (nonlinear_arith)
        requires
            d * p <= whole_limit() * p,
            p > 0,
    ;
    lemma_pow2_adds(k, 1074);
    float::lemma_grid_magnitude(d, k + 1074);
    assert(d * (p * one()) == (d * p) * one()) by (nonlinear_arith);
    choose|m: nat| m < INFINITE && #[trigger] float::mag_units(m) == d * pow2(k + 1074)
}

/// An integer that is a number has a last place.
proof fn lemma_placed(f: Float, i: int) -> (k: nat)
    requires
        is_whole(f, i),
        magnitude_of(i) <= pow2(110),
    ensures
        k <= 60,
        placed(i, k),
{
    let m = f.mag();
    let x = float::scale(m);
    let q = float::significand(m);
    let n = magnitude_of(i);
    let p = one();
    lemma_pow2_pos(1074);
    lemma2_to64();
    lemma2_to64_rest();
    float::lemma_magnitude_times(i, p);
    assert(q * pow2(x) == n * p);
    if x >= 1074 {
        let k = (x - 1074) as nat;
        lemma_pow2_adds(k, 1074);
        assert(q * (pow2(k) * p) == (q * pow2(k)) * p) by (nonlinear_arith);
        assert(n == q * pow2(k)) by (nonlinear_arith)
            requires
                (q * pow2(k)) * p == n * p,
                p > 0,
        ;
        lemma_pow2_pos(k);
        assert(STEP <= q < 2 * STEP);
        assert(q * pow2(k) <= whole_limit() * pow2(k) && q * pow2(k) >= STEP * pow2(k)) by (
            nonlinear_arith)
            requires
                STEP <= q <= whole_limit(),
        ;
        if i >= 0 {
            assert(steps(i, k, q as int));
        } else {
            assert(-(q * pow2(k)) == (-q) * pow2(k)) by (nonlinear_arith);
            assert(steps(i, k, -q));
        }
        if k > 60 {
            lemma_pow2_strictly_increases(60, k);
            lemma_pow2_adds(52, 60);
            lemma_pow2_strictly_increases(110, 112);
            assert(STEP * pow2(k) > STEP * pow2(60)) by (nonlinear_arith)
                requires
                    pow2(k) > pow2(60),
                    STEP == 0x10_0000_0000_0000,
            ;
        }
        k
    } else {
        assert(q < 2 * STEP);
        lemma_pow2_strictly_increases(x, 1074);
        assert(n <= whole_limit()) by (nonlinear_arith)
            requires
                q * pow2(x) == n * p,
                q <= whole_limit(),
                pow2(x) < p,
                p > 0,
        ;
        lemma_fine_integer(i);
        0
    }
}

/// The sum of two integers is the number nearest to the exact sum, an integer.
proof fn lemma_sum(a: Float, b: Float, i: int, j: int) -> (s: int)
    requires
        is_whole(a, i),
        is_whole(b, j),
        magnitude_of(i + j) <= pow2(106),
    ensures
        is_whole(float::sum_of(a, b), s),
        nearest(i + j, s),
{
    let n = i + j;
    let p = one();
    let t = float::sum_of(a, b);
    lemma_pow2_pos(1074);
    assert(i * p + j * p == n * p) by (nonlinear_arith)
        requires
            n == i + j,
    ;
    float::lemma_magnitude_times(n, p);
    float::lemma_zero_units();
    if n == 0 {
        assert(0 * p == 0);
        if a.negative() && b.negative() {
            assert(i * p <= 0 && j * p <= 0);
            assert(i == 0) by (nonlinear_arith)
                requires
                    i * p <= 0,
                    j * p <= 0,
                    i + j == 0,
                    p > 0,
            ;
        }
        0
    } else {
        let v = magnitude_of(n) * p;
        let m = float::round(v, 1);
        lemma_pow2_adds(53, 53);
        lemma2_to64_rest();
        let top = pow2(106) as int;
        assert(steps(top, 53, whole_limit() as int));
        assert(fine(top, 53));
        let high = lemma_fine_number(top, 53);
        float::lemma_round_exact(high);
        assert(v <= pow2(106) * p) by (nonlinear_arith)
            requires
                v == magnitude_of(n) * p,
                magnitude_of(n) <= pow2(106),
        ;
        float::lemma_round_monotone(v, pow2(106) * p);
        assert(m <= high);
        assert(t.mag() == m && t.negative() == (n < 0));
        let size: nat = if magnitude_of(n) <= whole_limit() {
            lemma_fine_integer(n);
            let low = lemma_fine_number(n, 0);
            float::lemma_round_exact(low);
            magnitude_of(n)
        } else {
            float::lemma_coarse();
            float::lemma_round_exact(COARSE as nat);
            assert(whole_limit() * p <= v) by (nonlinear_arith)
                requires
                    v == magnitude_of(n) * p,
                    magnitude_of(n) >= whole_limit(),
            ;
            float::lemma_round_monotone(whole_limit() * p, v);
            assert(m >= COARSE);
            let x = float::scale(m);
            assert(m / (STEP as nat) >= 1076) by (nonlinear_arith)
                requires
                    m >= 0x4340_0000_0000_0000,
                    STEP == 0x10_0000_0000_0000,
            ;
            let k = (x - 1074) as nat;
            lemma_pow2_adds(k, 1074);
            lemma_pow2_pos(k);
            let q = float::significand(m);
            assert(q * (pow2(k) * p) == (q * pow2(k)) * p) by (nonlinear_arith);
            assert(q * pow2(k) > 0) by (nonlinear_arith)
                requires
                    q > 0,
                    pow2(k) > 0,
            ;
            q * pow2(k)
        };
        assert(float::mag_units(m) == size * p);
        let s: int = if n < 0 {
            -(size as int)
        } else {
            size as int
        };
        assert((-(size as int)) * p == -(size * p)) by (nonlinear_arith);
        assert forall|y: int, k: nat| #[trigger] fine(y, k) && k <= 64 implies magnitude_of(n - s)
            <= magnitude_of(n - y) by {
            let other = lemma_fine_number(y, k);
            float::lemma_round_nearest(v, other);
            let (u, w, z) = (size as int, magnitude_of(n) as int, magnitude_of(y) as int);
            assert(u * p - w * p == (u - w) * p && z * p - w * p == (z - w) * p) by (nonlinear_arith);
            float::lemma_magnitude_times(u - w, p);
            float::lemma_magnitude_times(z - w, p);
            assert(magnitude_of(u - w) <= magnitude_of(z - w)) by (nonlinear_arith)
                requires
                    magnitude_of(u - w) * p <= magnitude_of(z - w) * p,
                    p > 0,
            ;
        }
        s
    }
}

/// A sum that is so few steps is exact.
proof fn lemma_exact_sum(a: Float, b: Float, r: int, k: nat)
    requires
        a.mag() < INFINITE,
        b.mag() < INFINITE,
        a.units() + b.units() == r * one(),
        fine(r, k),
        k <= 64,
        r == 0 ==> !(a.negative() && b.negative()),
    ensures
        is_whole(float::sum_of(a, b), r),
{
    let p = one();
    lemma_pow2_pos(1074);
    float::lemma_magnitude_times(r, p);
    float::lemma_zero_units();
    if r != 0 {
        let m = lemma_fine_number(r, k);
        float::lemma_round_exact(m);
        let t = float::sum_of(a, b);
        assert(t.mag() == m && t.negative() == (r < 0));
    } else {
        assert(0 * p == 0);
    }
}

/// Integers whose sum is not too large have an exact sum.
pub proof fn lemma_small_sum(a: Float, b: Float, i: int, j: int)
    requires
        is_whole(a, i),
        is_whole(b, j),
        magnitude_of(i + j) <= whole_limit(),
    ensures
        is_whole(float::sum_of(a, b), i + j),
{
    lemma2_to64_rest();
    lemma_pow2_strictly_increases(53, 106);
    let s = lemma_sum(a, b, i, j);
    lemma_error(i + j, s);
}

/// The sign of an integer is that of the number.
proof fn lemma_sign(f: Float, i: int)
    requires
        is_whole(f, i),
    ensures
        f.negative() <==> i < 0,
        f.mag() == 0 <==> i == 0,
        float::mag_units(f.mag()) == magnitude_of(i) * one(),
{
    lemma_pow2_pos(1074);
    float::lemma_magnitude_times(i, one());
    float::lemma_zero_units();
    if f.mag() > 0 {
        float::lemma_increasing(0, f.mag());
    }
}

/// What rounding takes of the sum of two integers is an integer, and kept exactly.
pub proof fn lemma_lost(a: Float, b: Float, i: int, j: int) -> (s: int)
    requires
        is_whole(a, i),
        is_whole(b, j),
        magnitude_of(i) + magnitude_of(j) <= pow2(105),
    ensures
        is_whole(float::sum_of(a, b), s),
        magnitude_of(i + j - s) * whole_limit() <= magnitude_of(i + j),
        is_whole(combine::lost(a, b), i + j - s),
{
    lemma_pow2_strictly_increases(105, 106);
    lemma_pow2_strictly_increases(106, 110);
    let s = lemma_sum(a, b, i, j);
    lemma_error(i + j, s);
    let p = one();
    lemma_pow2_pos(1074);
    lemma_sign(a, i);
    lemma_sign(b, j);
    float::lemma_by_magnitude(a, b);
    let (x, y) = (magnitude_of(i), magnitude_of(j));
    assert(x * p >= y * p <==> x >= y) by (nonlinear_arith)
        requires
            p > 0,
    ;
    if a.mag() >= b.mag() {
        lemma_lost_of_larger(a, b, i, j, s);
    } else {
        float::lemma_sum_commutes(a, b);
        lemma_lost_of_larger(b, a, j, i, s);
    }
    s
}

proof fn lemma_lost_of_larger(a: Float, b: Float, i: int, j: int, s: int)
    requires
        is_whole(a, i),
        is_whole(b, j),
        magnitude_of(j) <= magnitude_of(i),
        magnitude_of(i) + magnitude_of(j) <= pow2(105),
        is_whole(float::sum_of(a, b), s),
        nearest(i + j, s),
    ensures
        is_whole(
            float::sum_of(float::difference(a, float::sum_of(a, b)), b),
            i + j - s,
        ),
{
    lemma2_to64_rest();
    lemma_pow2_strictly_increases(105, 106);
    lemma_pow2_strictly_increases(106, 110);
    lemma_pow2_adds(53, 53);
    lemma_error(i + j, s);
    let p = one();
    let t = float::sum_of(a, b);
    let e = magnitude_of(i + j - s);
    assert(e <= whole_limit()) by (nonlinear_arith)
        requires
            e * whole_limit() <= pow2(106),
            pow2(106) == whole_limit() * whole_limit(),
            whole_limit() > 0,
    ;
    lemma_pow2_strictly_increases(53, 105);
    lemma_pow2_unfold(106);
    assert(magnitude_of(s) <= pow2(110));
    lemma_sign(a, i);
    lemma_sign(b, j);
    lemma_sign(t, s);
    let ki = lemma_placed(a, i);
    let kj = lemma_placed(b, j);
    let ks = lemma_placed(t, s);
    let minus = float::opposite(t);
    assert(minus.mag() == t.mag() && minus.negative() == !t.negative());
    assert(a.units() + minus.units() == (i - s) * p) by {
        assert(i * p - s * p == (i - s) * p) by (nonlinear_arith);
    }
    let k = if i == 0 {
        lemma_error(0, s);
        lemma_fine_integer(0);
        0nat
    } else if i > 0 {
        lemma_difference(i, j, s, ki, kj, ks);
        if fine(i - s, ki) {
            ki
        } else if fine(i - s, kj) {
            kj
        } else {
            ks
        }
    } else {
        lemma_nearest_opposite(i + j, s);
        lemma_multiples(i, i, ki);
        lemma_multiples(j, j, kj);
        lemma_multiples(s, s, ks);
        assert(-(i + j) == -i + -j);
        lemma_difference(-i, -j, -s, ki, kj, ks);
        let r = -i - -s;
        assert(-r == i - s);
        if fine(r, ki) {
            lemma_multiples(r, r, ki);
            ki
        } else if fine(r, kj) {
            lemma_multiples(r, r, kj);
            kj
        } else {
            lemma_multiples(r, r, ks);
            ks
        }
    };
    assert(fine(i - s, k));
    lemma_exact_sum(a, minus, i - s, k);
    let d = float::difference(a, t);
    assert(is_whole(d, i - s));
    assert((i - s) + j == i + j - s);
    lemma_small_sum(d, b, i - s, j);
}

/// The two parts of a sum add up to the integer `t`, and what it keeps of rounding is at most `kept`.
pub open spec fn holds(k: KahanSum, t: int, kept: nat) -> bool {
    exists|s: int, c: int| #[trigger] parts(k, s, c) && s + c == t && magnitude_of(c) <= kept
}

/// The parts of a sum are these integers.
pub open spec fn parts(k: KahanSum, s: int, c: int) -> bool {
    is_whole(k.sum, s) && is_whole(k.comp, c)
}

/// What rounding takes of one sum of integers that add up to at most `most` in magnitude, at most.
pub open spec fn slip(most: nat) -> nat {
    most / whole_limit() + 1
}

/// The sum of no integers.
pub proof fn lemma_nothing()
    ensures
        parts(KahanSum::nothing(), 0, 0),
        holds(KahanSum::nothing(), 0, 0),
{
    float::lemma_zero_units();
    assert(0 * one() == 0);
    assert(parts(KahanSum::nothing(), 0, 0));
}

proof fn lemma_slip(e: nat, most: nat, n: nat)
    requires
        e * whole_limit() <= n,
        n <= most + whole_limit(),
    ensures
        e <= slip(most),
{
    let w = whole_limit();
    let d = most / w;
    assert(most < (d + 1) * w) by (nonlinear_arith)
        requires
            d == most / w,
            w > 0,
    ;
    assert(e <= d + 1) by (nonlinear_arith)
        requires
            e * w <= most + w,
            most < (d + 1) * w,
            w > 0,
    ;
}

/// A sum with an integer added holds the sum of both.
pub proof fn lemma_with(k: KahanSum, t: int, kept: nat, v: Float, j: int, most: nat)
    requires
        holds(k, t, kept),
        is_whole(v, j),
        magnitude_of(t) + magnitude_of(j) <= most,
        most <= pow2(104),
        kept + slip(most) <= whole_limit(),
    ensures
        holds(k.with(v), t + j, kept + slip(most)),
{
    let (s, c) = choose|s: int, c: int| #[trigger] parts(k, s, c) && s + c == t && magnitude_of(c) <= kept;
    lemma2_to64_rest();
    lemma_pow2_strictly_increases(53, 104);
    lemma_pow2_unfold(105);
    let u = lemma_lost(k.sum, v, s, j);
    let e = s + j - u;
    lemma_slip(magnitude_of(e), most, magnitude_of(s + j));
    lemma_small_sum(k.comp, combine::lost(k.sum, v), c, e);
    assert(parts(k.with(v), u, c + e));
}

/// Two sums joined hold the sum of both.
pub proof fn lemma_joined(a: KahanSum, s: int, x: nat, b: KahanSum, t: int, y: nat, most: nat)
    requires
        holds(a, s, x),
        holds(b, t, y),
        magnitude_of(s) + magnitude_of(t) <= most,
        most <= pow2(103),
        x + y + slip(most) <= whole_limit(),
    ensures
        holds(a.joined(b), s + t, x + y + slip(most)),
{
    let (u, c) = choose|u: int, c: int| #[trigger] parts(a, u, c) && u + c == s && magnitude_of(c) <= x;
    let (v, d) = choose|v: int, d: int| #[trigger] parts(b, v, d) && v + d == t && magnitude_of(d) <= y;
    lemma_sign(a.sum, u);
    lemma_sign(a.comp, c);
    lemma_sign(b.sum, v);
    lemma_sign(b.comp, d);
    if b == KahanSum::nothing() {
        assert(v == 0 && d == 0);
        assert(parts(a, u, c));
    } else if a == KahanSum::nothing() {
        assert(u == 0 && c == 0);
        assert(parts(b, v, d));
    } else {
        let w = lemma_joined_parts(a, u, c, b, v, d, most);
        assert(parts(a.joined(b), w, s + t - w));
    }
}

proof fn lemma_joined_parts(a: KahanSum, u: int, c: int, b: KahanSum, v: int, d: int, most: nat) -> (w:
    int)
    requires
        parts(a, u, c),
        parts(b, v, d),
        a != KahanSum::nothing(),
        b != KahanSum::nothing(),
        magnitude_of(u + c) + magnitude_of(v + d) <= most,
        most <= pow2(103),
        magnitude_of(c) + magnitude_of(d) + slip(most) <= whole_limit(),
    ensures
        parts(a.joined(b), w, u + c + v + d - w),
        magnitude_of(u + c + v + d - w) <= magnitude_of(c) + magnitude_of(d) + slip(most),
{
    lemma2_to64_rest();
    lemma_pow2_strictly_increases(53, 103);
    lemma_pow2_unfold(104);
    lemma_pow2_unfold(105);
    assert(magnitude_of(u) + magnitude_of(v) <= most + whole_limit());
    let w = lemma_lost(a.sum, b.sum, u, v);
    let e = u + v - w;
    lemma_slip(magnitude_of(e), most, magnitude_of(u + v));
    lemma_small_sum(a.comp, b.comp, c, d);
    lemma_small_sum(float::sum_of(a.comp, b.comp), combine::lost(a.sum, b.sum), c + d, e);
    assert(c + d + e == u + c + v + d - w);
    w
}

/// The number that a sum stands for is the nearest one to the integer that it holds.
pub proof fn lemma_total(k: KahanSum, t: int, kept: nat)
    requires
        holds(k, t, kept),
    ensures
        k.total() == float::nearest_int(t),
{
    let (s, c) = choose|s: int, c: int| #[trigger] parts(k, s, c) && s + c == t && magnitude_of(c) <= kept;
    let p = one();
    lemma_pow2_pos(1074);
    lemma_sign(k.sum, s);
    lemma_sign(k.comp, c);
    assert(s * p + c * p == t * p) by (nonlinear_arith)
        requires
            t == s + c,
    ;
    float::lemma_magnitude_times(t, p);
    if t == 0 {
        float::lemma_zero_rounds(1);
        assert(0 * p == 0);
    }
}

} // verus!
