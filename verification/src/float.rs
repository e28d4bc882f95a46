//! Binary floating-point numbers, held by their bit patterns.
//!
//! A [`Float`] is an IEEE 754 binary64 number. Every finite one is a whole multiple of the smallest
//! positive one, so contracts speak of its exact value as an integer, [`Float::units`], and of a
//! computed result as the number nearest to an exact quotient of two integers ([`rounds_to`]).

use vstd::arithmetic::mul::*;
use vstd::arithmetic::power2::*;
use vstd::bits::*;
use vstd::prelude::*;

verus! {

/// The sign bit.
pub const SIGN: u64 = 0x8000_0000_0000_0000;

/// The magnitude of infinity; a magnitude above it is not a number.
pub const INFINITE: u64 = 0x7ff0_0000_0000_0000;

/// One step of the exponent field, and the hidden leading bit of a normal significand.
pub const STEP: u64 = 0x0010_0000_0000_0000;

/// The bit pattern that stands for every result that is not a number.
pub const QUIET: u64 = 0x7ff8_0000_0000_0000;

/// A binary64 number: `bits` is its interchange format, sign bit uppermost.
#[derive(Debug, Clone, Copy, PartialEq, Eq, Structural)]
pub struct Float {
    pub bits: u64,
}

impl crate::table::Duplicate for Float {
    fn duplicate(&self) -> (r: Self) {
        *self
    }
}

impl DeepView for Float {
    type V = Float;

    open spec fn deep_view(&self) -> Float {
        *self
    }
}

/// The exponent of the last place of the significand of magnitude `m`.
pub open spec fn scale(m: nat) -> nat {
    if m / (STEP as nat) == 0 {
        0
    } else {
        (m / (STEP as nat) - 1) as nat
    }
}

/// The significand of magnitude `m`, its hidden bit included.
pub open spec fn significand(m: nat) -> nat {
    if m / (STEP as nat) == 0 {
        m
    } else {
        m % (STEP as nat) + STEP as nat
    }
}

/// The exact value of magnitude `m`, in units of the smallest positive number. Infinity is given
/// the value that its place in the sequence of magnitudes would have.
pub open spec fn mag_units(m: nat) -> nat {
    significand(m) * pow2(scale(m))
}

/// `m` is the magnitude nearest to `num / den` units, the even one of two equally near.
pub open spec fn rounds_to(m: nat, num: nat, den: nat) -> bool {
    &&& m <= INFINITE
    &&& m > 0 ==> {
        let low = mag_units((m - 1) as nat) + mag_units(m);
        low * den < 2 * num || (low * den == 2 * num && m % 2 == 0)
    }
    &&& m < INFINITE ==> {
        let high = mag_units(m) + mag_units(m + 1);
        2 * num < high * den || (high * den == 2 * num && m % 2 == 0)
    }
}

/// The magnitude nearest to `num / den` units.
pub open spec fn round(num: nat, den: nat) -> nat {
    choose|m: nat| rounds_to(m, num, den)
}

/// The number with the given sign and magnitude.
pub open spec fn signed(negative: bool, m: nat) -> Float {
    Float {
        bits: if negative {
            (SIGN + m) as u64
        } else {
            m as u64
        },
    }
}

pub open spec fn magnitude_of(i: int) -> nat {
    if i < 0 {
        (-i) as nat
    } else {
        i as nat
    }
}

/// The sum of two numbers: the nearest one to the exact sum.
pub open spec fn sum_of(a: Float, b: Float) -> Float {
    if a.is_nan_spec() || b.is_nan_spec() {
        Float { bits: QUIET }
    } else if a.is_infinite() {
        if b.is_infinite() && a.negative() != b.negative() {
            Float { bits: QUIET }
        } else {
            a
        }
    } else if b.is_infinite() {
        b
    } else {
        let exact = a.units() + b.units();
        if exact == 0 {
            signed(a.negative() && b.negative(), 0)
        } else {
            signed(exact < 0, round(magnitude_of(exact), 1))
        }
    }
}

/// The quotient of two numbers: the nearest one to the exact quotient.
pub open spec fn quotient_of(a: Float, b: Float) -> Float {
    let negative = a.negative() != b.negative();
    if a.is_nan_spec() || b.is_nan_spec() {
        Float { bits: QUIET }
    } else if a.is_infinite() {
        if b.is_infinite() {
            Float { bits: QUIET }
        } else {
            signed(negative, INFINITE as nat)
        }
    } else if b.is_infinite() {
        signed(negative, 0)
    } else if b.mag() == 0 {
        if a.mag() == 0 {
            Float { bits: QUIET }
        } else {
            signed(negative, INFINITE as nat)
        }
    } else {
        signed(negative, round(mag_units(a.mag()) * pow2(1074), mag_units(b.mag())))
    }
}

/// The number nearest to an integer.
pub open spec fn nearest_int(i: int) -> Float {
    signed(i < 0, round(magnitude_of(i) * pow2(1074), 1))
}

/// The lesser of two numbers, of two zeros the negative one; where one is not a number, the other.
pub open spec fn min_of(a: Float, b: Float) -> Float {
    if a.is_nan_spec() && b.is_nan_spec() {
        Float { bits: QUIET }
    } else if a.is_nan_spec() || b.less(a) || (b.same(a) && b.negative()) {
        b
    } else {
        a
    }
}

/// The greater of two numbers, of two zeros the positive one; where one is not a number, the other.
pub open spec fn max_of(a: Float, b: Float) -> Float {
    if a.is_nan_spec() && b.is_nan_spec() {
        Float { bits: QUIET }
    } else if a.is_nan_spec() || a.less(b) || (b.same(a) && !b.negative()) {
        b
    } else {
        a
    }
}

/// The number with its sign turned.
pub open spec fn opposite(a: Float) -> Float {
    signed(!a.negative(), a.mag())
}

/// The difference of two numbers.
pub open spec fn difference(a: Float, b: Float) -> Float {
    sum_of(a, opposite(b))
}

impl Float {
    pub open spec fn mag(self) -> nat {
        (self.bits % SIGN) as nat
    }

    pub open spec fn negative(self) -> bool {
        self.bits >= SIGN
    }

    pub open spec fn is_nan_spec(self) -> bool {
        self.mag() > INFINITE
    }

    pub open spec fn is_infinite(self) -> bool {
        self.mag() == INFINITE
    }

    /// The exact value in units of the smallest positive number, infinity taken at its place.
    pub open spec fn units(self) -> int {
        if self.negative() {
            -(mag_units(self.mag()) as int)
        } else {
            mag_units(self.mag()) as int
        }
    }

    /// `self` is less than `other`: false where either is not a number.
    pub open spec fn less(self, other: Float) -> bool {
        !self.is_nan_spec() && !other.is_nan_spec() && self.units() < other.units()
    }

    /// `self` equals `other` as a number (the two zeros are equal).
    pub open spec fn same(self, other: Float) -> bool {
        !self.is_nan_spec() && !other.is_nan_spec() && self.units() == other.units()
    }
}

/// Each magnitude lies one unit in the last place above the one before.
pub proof fn lemma_step(m: nat)
    ensures
        mag_units(m + 1) == mag_units(m) + pow2(scale(m)),
{
    let s = STEP as nat;
    let e = m / s;
    let p = pow2(scale(m));
    if m % s < s - 1 {
        assert((m + 1) / s == e && (m + 1) % s == m % s + 1);
        assert((significand(m) + 1) * p == significand(m) * p + p) by (nonlinear_arith);
    } else {
        assert((m + 1) / s == e + 1 && (m + 1) % s == 0);
        if e == 0 {
            assert((significand(m) + 1) * p == significand(m) * p + p) by (nonlinear_arith);
        } else {
            lemma_pow2_unfold(e);
            assert(significand(m) == 2 * s - 1);
            assert(s * (2 * p) == (2 * s - 1) * p + p) by (nonlinear_arith);
        }
    }
}

/// A greater magnitude has a greater value.
pub proof fn lemma_increasing(a: nat, b: nat)
    requires
        a < b,
    ensures
        mag_units(a) < mag_units(b),
    decreases b - a,
{
    lemma_step(a);
    lemma_pow2_pos(scale(a));
    if a + 1 < b {
        lemma_increasing(a + 1, b);
    }
}

/// At most one magnitude is nearest.
pub proof fn lemma_round_unique(a: nat, b: nat, num: nat, den: nat)
    requires
        rounds_to(a, num, den),
        rounds_to(b, num, den),
        den > 0,
    ensures
        a == b,
{
    lemma_round_ordered(a, b, num, den);
    lemma_round_ordered(b, a, num, den);
}

proof fn lemma_round_ordered(a: nat, b: nat, num: nat, den: nat)
    requires
        rounds_to(a, num, den),
        rounds_to(b, num, den),
        den > 0,
    ensures
        b <= a,
{
    let high = mag_units(a) + mag_units(a + 1);
    let low = mag_units((b - 1) as nat) + mag_units(b);
    if a + 1 < b {
        lemma_increasing(a, (b - 1) as nat);
        lemma_increasing(a + 1, b);
        assert(high * den < low * den) by (nonlinear_arith)
            requires
                high < low,
                den > 0,
        ;
    }
}

/// The nearest magnitude is the one that satisfies the definition.
pub proof fn lemma_round_is(m: nat, num: nat, den: nat)
    requires
        rounds_to(m, num, den),
        den > 0,
    ensures
        round(num, den) == m,
{
    lemma_round_unique(round(num, den), m, num, den);
}


/// The magnitude with significand `q` at exponent `x`.
spec fn place(x: nat, q: nat) -> nat {
    x * (STEP as nat) + q
}

/// The value and the neighbours of the magnitude with significand `q` at exponent `x`.
proof fn lemma_place(x: nat, q: nat)
    requires
        x == 0 || q >= STEP,
        q <= 2 * STEP,
    ensures
        mag_units(place(x, q)) == q * pow2(x),
        mag_units(place(x, q) + 1) >= (q + 1) * pow2(x),
        q < 2 * STEP ==> mag_units(place(x, q) + 1) == (q + 1) * pow2(x),
        q > 0 && (q > STEP || x == 0) ==> mag_units((place(x, q) - 1) as nat) == (q - 1) * pow2(x),
        place(x, q) % 2 == q % 2,
{
    let s = STEP as nat;
    let m = place(x, q);
    let p = pow2(x);
    lemma_pow2_pos(x);
    if q < 2 * s {
        lemma_place_value(x, q);
        lemma_step(m);
        assert(scale(m) == x);
        assert((q + 1) * p == q * p + p) by (nonlinear_arith);
    } else {
        lemma_place_value(x + 1, s);
        lemma_step(m);
        assert((x + 1) * s + s == m) by (nonlinear_arith)
            requires
                m == x * s + q,
                q == 2 * s,
        ;
        assert(scale(m) == x + 1);
        lemma_pow2_unfold(x + 1);
        assert(s * (2 * p) == (2 * s) * p) by (nonlinear_arith);
        assert((q + 1) * p == q * p + p) by (nonlinear_arith);
    }
    if q > 0 && (q > s || x == 0) {
        lemma_place_value(x, (q - 1) as nat);
    }
    assert(place(x, q) % 2 == q % 2) by {
        assert(x * (STEP as nat) == 2 * (x * (STEP as nat / 2))) by (nonlinear_arith)
            requires
                STEP as nat == 2 * (STEP as nat / 2),
        ;
    }
}

proof fn lemma_place_value(x: nat, q: nat)
    requires
        x == 0 || q >= STEP,
        q < 2 * STEP,
    ensures
        scale(place(x, q)) == x,
        significand(place(x, q)) == q,
{
    let s = STEP as nat;
    let m = place(x, q);
    if q < s {
    } else {
        assert(m == (x + 1) * s + (q - s)) by (nonlinear_arith)
            requires
                m == x * s + q,
        ;
        assert(m / s == x + 1 && m % s == q - s) by (nonlinear_arith)
            requires
                m == (x + 1) * s + (q - s),
                0 <= q - s < s,
        ;
    }
}

/// Bounds on the exact value that make the magnitude with significand `q` the nearest.
proof fn lemma_rounded(x: nat, q: nat, num: nat, den: nat)
    requires
        x == 0 || q >= STEP,
        q <= 2 * STEP,
        place(x, q) <= INFINITE,
        den > 0,
        2 * num < (2 * q + 1) * (pow2(x) * den) || (2 * num == (2 * q + 1) * (pow2(x) * den) && q % 2
            == 0),
        2 * num > (2 * q - 1) * (pow2(x) * den) || (2 * num == (2 * q - 1) * (pow2(x) * den) && q % 2
            == 0),
        q == STEP && x > 0 ==> num >= q * (pow2(x) * den),
    ensures
        rounds_to(place(x, q), num, den),
{
    let m = place(x, q);
    let p = pow2(x);
    let d = p * den;
    lemma_pow2_pos(x);
    lemma_place(x, q);
    assert(d > 0) by (nonlinear_arith)
        requires
            p > 0,
            den > 0,
            d == p * den,
    ;
    let high = mag_units(m) + mag_units(m + 1);
    assert(high * den >= (2 * q + 1) * d) by (nonlinear_arith)
        requires
            high >= q * p + (q + 1) * p,
            d == p * den,
            den > 0,
    ;
    if q < 2 * STEP {
        assert(high * den == (2 * q + 1) * d) by (nonlinear_arith)
            requires
                high == q * p + (q + 1) * p,
                d == p * den,
        ;
    }
    if m > 0 {
        let low = mag_units((m - 1) as nat) + mag_units(m);
        if q > STEP || x == 0 {
            assert(low * den == (2 * q - 1) * d) by (nonlinear_arith)
                requires
                    low == (q - 1) * p + q * p,
                    d == p * den,
            ;
        } else {
            lemma_increasing((m - 1) as nat, m);
            assert(low * den < 2 * (q * d)) by (nonlinear_arith)
                requires
                    low < 2 * (q * p),
                    d == p * den,
                    den > 0,
            ;
        }
    }
}

/// 2 to the power `k`.
pub(crate) fn power(k: u32) -> (p: u128)
    requires
        k < 128,
    ensures
        p == pow2(k as nat),
{
    let low: u32 = if k < 64 {
        k
    } else {
        k - 64
    };
    proof {
        lemma_u64_pow2_no_overflow(low as nat);
        lemma_u64_shl_is_mul(1, low as u64);
        lemma2_to64_rest();
        lemma_pow2_adds(64, low as nat);
    }
    let p: u128 = (1u64 << low) as u128;
    if k < 64 {
        p
    } else {
        p * 0x1_0000_0000_0000_0000
    }
}

/// The number of bits of `m`.
pub(crate) fn bit_length(m: u128) -> (l: u32)
    requires
        m > 0,
    ensures
        0 < l <= 128,
        pow2((l - 1) as nat) <= m < pow2(l as nat),
{
    let mut l: u32 = 0;
    let mut rest: u128 = m;
    proof {
        lemma2_to64();
        assert(m * 1 == m && (m + 1) * 1 == m + 1);
    }
    while rest > 0
        invariant
            m > 0,
            l <= 128,
            rest * pow2(l as nat) <= m < (rest + 1) * pow2(l as nat),
            rest > 0 ==> l < 128,
            l == 0 ==> rest == m,
            rest == 0 ==> l > 0 && pow2((l - 1) as nat) <= m,
        decreases rest,
    {
        let ghost before = rest;
        let ghost p = pow2(l as nat);
        rest = rest / 2;
        l = l + 1;
        proof {
            lemma_pow2_unfold(l as nat);
            lemma_pow2_pos((l - 1) as nat);
            assert(rest * (2 * p) <= before * p) by (nonlinear_arith)
                requires
                    2 * rest <= before,
            ;
            assert((before + 1) * p <= (rest + 1) * (2 * p)) by (nonlinear_arith)
                requires
                    before + 1 <= 2 * (rest + 1),
            ;
            if before == 1 {
                assert(1 * p == p);
            }
            if rest > 0 && l == 128 {
                lemma2_to64_rest();
                lemma_pow2_adds(64, 64);
                assert(rest * pow2(128) >= pow2(128)) by (nonlinear_arith)
                    requires
                        rest >= 1,
                ;
            }
        }
    }
    proof {
        assert((rest + 1) * pow2(l as nat) == pow2(l as nat)) by (nonlinear_arith)
            requires
                rest == 0,
        ;
    }
    l
}

/// `num / den` is `m` times 2 to the power `e`, or, where `sticky`, more than that and less than
/// `m + 1` times it.
pub(crate) open spec fn scaled(m: nat, e: int, sticky: bool, num: nat, den: nat) -> bool {
    let up = if e >= 0 {
        pow2(e as nat)
    } else {
        1
    };
    let down = if e >= 0 {
        1
    } else {
        pow2((-e) as nat)
    };
    if sticky {
        m * (up * den) < num * down < (m + 1) * (up * den)
    } else {
        num * down == m * (up * den)
    }
}

/// The step of the rounding on whole numbers: `q` is the significand chosen for `m`, of which
/// `drop` low bits fall away.
proof fn lemma_drop(m: nat, q: nat, rem: nat, up: bool, sticky: bool, d: nat, k: nat, v: nat)
    requires
        m == q * d + rem,
        rem < d,
        k > 0,
        d >= 2,
        d % 2 == 0,
        if sticky {
            m * k < v < (m + 1) * k
        } else {
            v == m * k
        },
        up <==> (rem > d / 2 || (rem == d / 2 && (sticky || q % 2 == 1))),
    ensures
        ({
            let r: nat = if up {
                q + 1
            } else {
                q
            };
            &&& 2 * v < (2 * r + 1) * (d * k) || (2 * v == (2 * r + 1) * (d * k) && r % 2 == 0)
            &&& 2 * v > (2 * r - 1) * (d * k) || (2 * v == (2 * r - 1) * (d * k) && r % 2 == 0)
            &&& !up ==> v >= r * (d * k)
        }),
{
    let h = d / 2;
    assert(2 * h == d);
    assert(m * k == q * (d * k) + rem * k) by (nonlinear_arith)
        requires
            m == q * d + rem,
    ;
    assert((m + 1) * k == m * k + k) by (nonlinear_arith);
    assert((2 * q + 1) * (d * k) == 2 * (q * (d * k)) + d * k) by (nonlinear_arith);
    assert((2 * (q + 1) + 1) * (d * k) == 2 * (q * (d * k)) + 3 * (d * k)) by (nonlinear_arith);
    assert((2 * (q + 1) - 1) * (d * k) == 2 * (q * (d * k)) + d * k) by (nonlinear_arith);
    assert((2 * q - 1) * (d * k) == 2 * (q * (d * k)) - d * k) by (nonlinear_arith);
    assert(d * k == 2 * (h * k)) by (nonlinear_arith)
        requires
            d == 2 * h,
    ;
    assert(d * k > 0) by (nonlinear_arith)
        requires
            d > 0,
            k > 0,
    ;
    if rem < h {
        assert(rem * k + k <= h * k) by (nonlinear_arith)
            requires
                rem + 1 <= h,
                k > 0,
        ;
    }
    if rem > h {
        assert(rem * k >= h * k + k) by (nonlinear_arith)
            requires
                rem >= h + 1,
                k > 0,
        ;
    }
    assert(rem * k + k <= d * k) by (nonlinear_arith)
        requires
            rem + 1 <= d,
            k > 0,
    ;
    assert(rem * k >= 0) by (nonlinear_arith);
}

proof fn lemma_cancel(a: int, b: int, c: int)
    requires
        c > 0,
    ensures
        a * c < b * c <==> a < b,
        a * c == b * c <==> a == b,
{
    if a < b {
        lemma_mul_strict_inequality(a, b, c);
    } else if b < a {
        lemma_mul_strict_inequality(b, a, c);
    }
}

/// Bounds on the scaled value are bounds on the value.
proof fn lemma_unscale(x: nat, r: nat, up: nat, down: nat, d: nat, num: nat, den: nat)
    requires
        down > 0,
        d * up == pow2(x) * down,
    ensures
        2 * (num * down) < (2 * r + 1) * (d * (up * den)) <==> 2 * num < (2 * r + 1) * (pow2(x) * den),
        2 * (num * down) == (2 * r + 1) * (d * (up * den)) <==> 2 * num == (2 * r + 1) * (pow2(x)
            * den),
        2 * (num * down) > (2 * r - 1) * (d * (up * den)) <==> 2 * num > (2 * r - 1) * (pow2(x) * den),
        2 * (num * down) == (2 * r - 1) * (d * (up * den)) <==> 2 * num == (2 * r - 1) * (pow2(x)
            * den),
        num * down >= r * (d * (up * den)) <==> num >= r * (pow2(x) * den),
{
    let p = pow2(x);
    assert(d * (up * den) == (p * den) * down) by (nonlinear_arith)
        requires
            d * up == p * down,
    ;
    let w = p * den;
    assert(2 * (num * down) == (2 * num) * down) by (nonlinear_arith);
    assert((2 * r + 1) * (w * down) == ((2 * r + 1) * w) * down) by (nonlinear_arith);
    assert((2 * r - 1) * (w * down) == ((2 * r - 1) * w) * down) by (nonlinear_arith);
    assert(r * (w * down) == (r * w) * down) by (nonlinear_arith);
    lemma_cancel((2 * num) as int, ((2 * r + 1) * w) as int, down as int);
    lemma_cancel((2 * r - 1) * w, (2 * num) as int, down as int);
    lemma_cancel(num as int, (r * w) as int, down as int);
}

/// A value of at least the place of infinity rounds to infinity.
pub(crate) proof fn lemma_overflow(num: nat, den: nat)
    requires
        den > 0,
        num >= pow2(2098) * den,
    ensures
        rounds_to(INFINITE as nat, num, den),
{
    let m = INFINITE as nat;
    lemma2_to64_rest();
    lemma_pow2_adds(52, 2046);
    assert(mag_units(m) == pow2(2098));
    lemma_increasing((m - 1) as nat, m);
    let low = mag_units((m - 1) as nat) + mag_units(m);
    assert(low * den < 2 * (pow2(2098) * den)) by (nonlinear_arith)
        requires
            low < 2 * pow2(2098),
            den > 0,
    ;
}

/// The nearest magnitude to `m` times 2 to the power `e`, and a little more where `sticky`.
#[verifier::rlimit(80)]
#[verifier::spinoff_prover]
pub(crate) fn round_scaled(
    m: u128,
    e: i32,
    sticky: bool,
    Ghost(num): Ghost<nat>,
    Ghost(den): Ghost<nat>,
) -> (r: u64)
    requires
        m > 0,
        -4000 <= e <= 4000,
        den > 0,
        scaled(m as nat, e as int, sticky, num, den),
        sticky ==> m >= 2 * STEP,
    ensures
        rounds_to(r as nat, num, den),
{
    let l: u32 = bit_length(m);
    let top: i32 = l as i32 - 53 + e;
    let x: i32 = if top > 0 {
        top
    } else {
        0
    };
    let drop: i32 = x - e;
    let ghost up: nat = if e >= 0 {
        pow2(e as nat)
    } else {
        1
    };
    let ghost down: nat = if e >= 0 {
        1
    } else {
        pow2((-e) as nat)
    };
    let ghost k: nat = up * den;
    let ghost v: nat = num * down;
    proof {
        lemma2_to64();
        lemma2_to64_rest();
        lemma_pow2_pos(if e >= 0 {
            e as nat
        } else {
            (-e) as nat
        });
        assert(k > 0) by (nonlinear_arith)
            requires
                up > 0,
                den > 0,
                k == up * den,
        ;
    }
    if x >= 2046 {
        proof {
            let t = (top + 52) as nat;
            let b = pow2((l - 1) as nat);
            if e >= 0 {
                lemma_pow2_adds((l - 1) as nat, e as nat);
                assert(b * up == pow2(t));
            } else {
                lemma_pow2_adds(t, (-e) as nat);
                assert(b == pow2(t) * down);
            }
            assert(b * up == pow2(t) * down);
            assert(m * k >= b * k) by (nonlinear_arith)
                requires
                    m >= b,
            ;
            assert(b * k == (pow2(t) * den) * down) by (nonlinear_arith)
                requires
                    k == up * den,
                    b * up == pow2(t) * down,
            ;
            lemma_cancel(num as int, (pow2(t) * den) as int, down as int);
            if t > 2098 {
                lemma_pow2_strictly_increases(2098, t);
            }
            assert(pow2(t) * den >= pow2(2098) * den) by (nonlinear_arith)
                requires
                    pow2(t) >= pow2(2098),
            ;
            lemma_overflow(num, den);
        }
        return INFINITE;
    }
    if drop <= 0 {
        let s: u32 = (-drop) as u32;
        proof {
            assert(e >= 0 && !sticky) by {
                if sticky && l <= 53 {
                    if l < 53 {
                        lemma_pow2_strictly_increases(l as nat, 53);
                    }
                }
            }
            lemma_pow2_adds(s as nat, l as nat);
            lemma_pow2_adds(s as nat, (l - 1) as nat);
            if s + l < 53 {
                lemma_pow2_strictly_increases((s + l) as nat, 53);
            }
            if s > 0 {
                lemma_pow2_strictly_increases(0, s as nat);
            }
            let p = pow2(s as nat);
            assert(m * p < p * pow2(l as nat)) by (nonlinear_arith)
                requires
                    m < pow2(l as nat),
                    p > 0,
            ;
            assert(m * p >= p * pow2((l - 1) as nat)) by (nonlinear_arith)
                requires
                    m >= pow2((l - 1) as nat),
            ;
        }
        assert(s < 128) by {
            if s >= 53 {
                if s > 53 {
                    lemma_pow2_strictly_increases(53, s as nat);
                }
                assert(m * pow2(s as nat) >= pow2(s as nat)) by (nonlinear_arith)
                    requires
                        m >= 1,
                ;
            }
        }
        let q: u128 = m * power(s);
        proof {
            lemma_pow2_adds(x as nat, s as nat);
            let p = pow2(x as nat);
            assert(m * k == q * (p * den)) by (nonlinear_arith)
                requires
                    k == up * den,
                    up == p * pow2(s as nat),
                    q == m * pow2(s as nat),
            ;
            let w = p * den;
            lemma_pow2_pos(x as nat);
            assert(w > 0) by (nonlinear_arith)
                requires
                    p > 0,
                    den > 0,
                    w == p * den,
            ;
            assert((2 * q + 1) * w == 2 * (q * w) + w) by (nonlinear_arith);
            assert((2 * q - 1) * w == 2 * (q * w) - w) by (nonlinear_arith);
            lemma_rounded(x as nat, q as nat, num, den);
        }
        return x as u64 * STEP + q as u64;
    }
    proof {
        if e >= 0 {
            lemma_pow2_adds(drop as nat, e as nat);
        } else {
            lemma_pow2_adds(x as nat, (-e) as nat);
        }
        assert(pow2(drop as nat) * up == pow2(x as nat) * down);
        lemma_pow2_unfold(drop as nat);
        lemma_pow2_pos((drop - 1) as nat);
    }
    let ghost d: nat = pow2(drop as nat);
    if drop >= 128 {
        let half: u128 = power(127);
        let above: bool = drop == 128 && (m > half || (m == half && sticky));
        proof {
            lemma_pow2_unfold(128);
            lemma_pow2_adds(64, 64);
            if drop > 128 {
                lemma_pow2_strictly_increases(127, (drop - 1) as nat);
                lemma_pow2_strictly_increases(128, drop as nat);
                lemma_pow2_unfold((drop - 1) as nat);
                if drop - 2 > 127 {
                    lemma_pow2_strictly_increases(127, (drop - 2) as nat);
                }
            }
            assert(0 * d == 0);
            lemma_drop(m as nat, 0, m as nat, above, sticky, d, k, v);
            let r: nat = if above {
                1
            } else {
                0
            };
            lemma_unscale(x as nat, r, up, down, d, num, den);
            lemma_rounded(x as nat, r, num, den);
        }
        return if above {
            1
        } else {
            0
        };
    }
    let p: u128 = power(drop as u32);
    let q: u128 = m / p;
    let rem: u128 = m % p;
    let half: u128 = p / 2;
    let above: bool = rem > half || (rem == half && (sticky || q % 2 == 1));
    proof {
        assert(m == q * p + rem) by {
            vstd::arithmetic::div_mod::lemma_fundamental_div_mod(m as int, p as int);
            lemma_mul_is_commutative(p as int, q as int);
        }
        lemma_drop(m as nat, q as nat, rem as nat, above, sticky, d, k, v);
        let r: nat = if above {
            (q + 1) as nat
        } else {
            q as nat
        };
        lemma_unscale(x as nat, r, up, down, d, num, den);
        // The quotient has at most 53 bits, and all of them above the lowest exponent.
        if l as i32 >= drop {
            lemma_pow2_adds(drop as nat, (l - drop) as nat);
        }
        assert(q < 2 * STEP) by {
            if l < drop + 53 {
                lemma_pow2_strictly_increases(l as nat, (drop + 53) as nat);
            }
            lemma_pow2_adds(drop as nat, 53);
            assert(q < 2 * STEP) by (nonlinear_arith)
                requires
                    q * p + rem < p * (2 * STEP),
                    rem >= 0,
                    p > 0,
            ;
        }
        if x > 0 {
            lemma_pow2_adds(drop as nat, 52);
            assert(q >= STEP) by (nonlinear_arith)
                requires
                    q * p + rem >= p * STEP,
                    rem < p,
            ;
        }
        lemma_rounded(x as nat, r, num, den);
    }
    let r: u128 = if above {
        q + 1
    } else {
        q
    };
    x as u64 * STEP + r as u64
}

/// The exponent and the significand of a finite magnitude.
pub(crate) fn split(m: u64) -> (r: (i32, u64))
    requires
        m < INFINITE,
    ensures
        r.0 == scale(m as nat),
        r.1 == significand(m as nat),
        0 <= r.0 <= 2045,
        r.1 < 2 * STEP,
        r.0 > 0 ==> r.1 >= STEP,
        m > 0 <==> r.1 > 0,
{
    let field: u64 = m / STEP;
    if field == 0 {
        (0, m)
    } else {
        ((field - 1) as i32, m % STEP + STEP)
    }
}

proof fn lemma_scale_ordered(a: nat, b: nat)
    requires
        a <= b,
    ensures
        scale(a) <= scale(b),
{
    vstd::arithmetic::div_mod::lemma_div_is_ordered(a as int, b as int, STEP as int);
}

/// The magnitude of the sum, or of the difference, of two finite magnitudes.
fn combine_magnitudes(big: u64, small: u64, subtract: bool) -> (r: u64)
    requires
        small <= big < INFINITE,
        big > 0,
        subtract ==> small < big,
    ensures
        rounds_to(
            r as nat,
            if subtract {
                (mag_units(big as nat) - mag_units(small as nat)) as nat
            } else {
                mag_units(big as nat) + mag_units(small as nat)
            },
            1,
        ),
{
    let (xb, qb) = split(big);
    let (xs, qs) = split(small);
    let ghost ub = mag_units(big as nat);
    let ghost us = mag_units(small as nat);
    let ghost num: nat = if subtract {
        (ub - us) as nat
    } else {
        ub + us
    };
    proof {
        lemma_scale_ordered(small as nat, big as nat);
        if small < big {
            lemma_increasing(small as nat, big as nat);
        }
        lemma2_to64();
        lemma2_to64_rest();
    }
    let d: i32 = xb - xs;
    if d <= 70 {
        proof {
            lemma_pow2_adds(xs as nat, d as nat);
            if d < 70 {
                lemma_pow2_strictly_increases(d as nat, 70);
            }
            lemma_pow2_adds(64, 6);
            lemma_pow2_pos(d as nat);
            lemma_pow2_pos(xs as nat);
            let p = pow2(d as nat);
            assert(qb * p < 0x20_0000_0000_0000 * 0x40_0000_0000_0000_0000) by (nonlinear_arith)
                requires
                    qb < 0x20_0000_0000_0000,
                    0 < p <= 0x40_0000_0000_0000_0000,
            ;
            assert(qb * p >= qb) by (nonlinear_arith)
                requires
                    p >= 1,
            ;
            let t = pow2(xs as nat);
            assert(ub == (qb * p) * t) by (nonlinear_arith)
                requires
                    ub == qb * (t * p),
            ;
            assert((qb * p - qs) * t == (qb * p) * t - qs * t) by (nonlinear_arith);
            assert((qb * p + qs) * t == (qb * p) * t + qs * t) by (nonlinear_arith);
            if subtract {
                lemma_cancel(qs as int, qb * p, t as int);
            }
        }
        let high: u128 = qb as u128 * power(d as u32);
        let m: u128 = if subtract {
            high - qs as u128
        } else {
            high + qs as u128
        };
        round_scaled(m, xs, false, Ghost(num), Ghost(1))
    } else {
        let sticky: bool = qs > 0;
        let m: u128 = if subtract && sticky {
            4 * (qb as u128) - 1
        } else {
            4 * (qb as u128)
        };
        proof {
            let up = pow2((xb - 2) as nat);
            lemma_pow2_adds(2, (xb - 2) as nat);
            assert(ub == (4 * qb) * up) by (nonlinear_arith)
                requires
                    ub == qb * (4 * up),
            ;
            lemma_pow2_adds(53, xs as nat);
            lemma_pow2_strictly_increases((53 + xs) as nat, (xb - 2) as nat);
            lemma_pow2_pos(xs as nat);
            let t = pow2(xs as nat);
            assert(us < up) by (nonlinear_arith)
                requires
                    us == qs * t,
                    qs < 0x20_0000_0000_0000,
                    0x20_0000_0000_0000 * t < up,
                    t > 0,
            ;
            if sticky {
                assert(us > 0) by (nonlinear_arith)
                    requires
                        us == qs * t,
                        qs > 0,
                        t > 0,
                ;
            } else {
                assert(us == 0) by (nonlinear_arith)
                    requires
                        us == qs * t,
                        qs == 0,
                ;
            }
            assert((4 * qb - 1) * up == (4 * qb) * up - up) by (nonlinear_arith);
            assert((4 * qb + 1) * up == (4 * qb) * up + up) by (nonlinear_arith);
        }
        round_scaled(m, xb - 2, sticky, Ghost(num), Ghost(1))
    }
}

/// The magnitude of the quotient of two finite magnitudes.
fn divide_magnitudes(a: u64, b: u64) -> (r: u64)
    requires
        0 < a < INFINITE,
        0 < b < INFINITE,
    ensures
        rounds_to(r as nat, mag_units(a as nat) * pow2(1074), mag_units(b as nat)),
{
    let (xa, qa) = split(a);
    let (xb, qb) = split(b);
    proof {
        lemma2_to64();
        lemma2_to64_rest();
    }
    let l: u32 = bit_length(qa as u128);
    proof {
        if l > 53 {
            if l > 54 {
                lemma_pow2_strictly_increases(53, (l - 1) as nat);
            }
        }
    }
    let s: u32 = 53 - l;
    let f: u128 = power(s + 70);
    proof {
        let h = pow2((l - 1) as nat);
        lemma_pow2_pos((s + 70) as nat);
        lemma_pow2_adds((l - 1) as nat, (s + 70) as nat);
        lemma_pow2_adds(l as nat, (s + 70) as nat);
        lemma_pow2_adds(64, 58);
        lemma_pow2_adds(64, 59);
        assert(qa * f >= h * f) by (nonlinear_arith)
            requires
                qa >= h,
                f >= 0,
        ;
        assert(qa * f < pow2(l as nat) * f) by (nonlinear_arith)
            requires
                qa < pow2(l as nat),
                f > 0,
        ;
    }
    let n: u128 = qa as u128 * f;
    let q: u128 = n / (qb as u128);
    let rem: u128 = n % (qb as u128);
    let e: i32 = xa - s as i32 - 70 - xb + 1074;
    let ghost num = mag_units(a as nat) * pow2(1074);
    let ghost den = mag_units(b as nat);
    proof {
        vstd::arithmetic::div_mod::lemma_fundamental_div_mod(n as int, qb as int);
        assert(n == q * qb + rem) by {
            lemma_mul_is_commutative(qb as int, q as int);
        }
        assert(q >= 2 * STEP) by (nonlinear_arith)
            requires
                q * qb + rem >= 0x400_0000_0000_0000 * 0x1_0000_0000_0000_0000,
                0 <= rem < qb,
                0 < qb < 2 * 0x10_0000_0000_0000,
                STEP == 0x10_0000_0000_0000,
        ;
        let up: nat = if e >= 0 {
            pow2(e as nat)
        } else {
            1
        };
        let down: nat = if e >= 0 {
            1
        } else {
            pow2((-e) as nat)
        };
        let ra = pow2(xa as nat);
        let rb = pow2(xb as nat);
        let one = pow2(1074);
        let t = f as nat;
        let w = (ra * one) * down;
        lemma_pow2_pos(xa as nat);
        lemma_pow2_pos(xb as nat);
        lemma_pow2_pos(1074);
        lemma_pow2_adds(xa as nat, 1074);
        lemma_pow2_adds(xb as nat, (s + 70) as nat);
        if e >= 0 {
            lemma_pow2_adds(e as nat, (xb + s + 70) as nat);
        } else {
            lemma_pow2_pos((-e) as nat);
            lemma_pow2_adds((xa + 1074) as nat, (-e) as nat);
        }
        assert(up * (rb * t) == w);
        assert((num * down) * t == n * w) by (nonlinear_arith)
            requires
                num == (qa * ra) * one,
                n == qa * t,
                w == (ra * one) * down,
        ;
        assert((up * den) * t == qb * w) by (nonlinear_arith)
            requires
                den == qb * rb,
                up * (rb * t) == w,
        ;
        let k = up * den;
        let v = num * down;
        assert((q * k) * t == (q * qb) * w) by (nonlinear_arith)
            requires
                k * t == qb * w,
        ;
        assert(((q + 1) * k) * t == ((q + 1) * qb) * w) by (nonlinear_arith)
            requires
                k * t == qb * w,
        ;
        assert(w > 0 && t > 0) by {
            lemma_mul_strictly_positive(ra as int, one as int);
            lemma_mul_strictly_positive((ra * one) as int, down as int);
        }
        assert((q + 1) * qb == q * qb + qb) by (nonlinear_arith);
        lemma_cancel((q * qb) as int, n as int, w as int);
        lemma_cancel(n as int, ((q + 1) * qb) as int, w as int);
        lemma_cancel((q * k) as int, v as int, t as int);
        lemma_cancel(v as int, ((q + 1) * k) as int, t as int);
        assert(den > 0) by (nonlinear_arith)
            requires
                den == qb * rb,
                qb > 0,
                rb > 0,
        ;
    }
    round_scaled(q, e, rem > 0, Ghost(num), Ghost(den))
}

/// A number by its sign and magnitude.
pub(crate) fn with_sign(negative: bool, m: u64) -> (r: Float)
    requires
        m < SIGN,
    ensures
        r == signed(negative, m as nat),
        r.mag() == m,
        r.negative() == negative,
{
    if negative {
        Float { bits: SIGN + m }
    } else {
        Float { bits: m }
    }
}

impl Float {
    pub fn is_nan(self) -> (r: bool)
        ensures
            r == self.is_nan_spec(),
    {
        self.bits % SIGN > INFINITE
    }

    pub fn is_finite(self) -> (r: bool)
        ensures
            r == (self.mag() < INFINITE),
    {
        self.bits % SIGN < INFINITE
    }

    /// The number with its sign turned.
    pub fn negated(self) -> (r: Float)
        ensures
            r.mag() == self.mag(),
            r.negative() != self.negative(),
            r.units() == -self.units(),
            r == opposite(self),
    {
        if self.bits >= SIGN {
            Float { bits: self.bits - SIGN }
        } else {
            Float { bits: self.bits + SIGN }
        }
    }

    /// The sum.
    pub fn plus(self, other: Float) -> (r: Float)
        ensures
            r == sum_of(self, other),
    {
        let a: u64 = self.bits % SIGN;
        let b: u64 = other.bits % SIGN;
        let a_negative: bool = self.bits >= SIGN;
        let b_negative: bool = other.bits >= SIGN;
        if a > INFINITE || b > INFINITE {
            return Float { bits: QUIET };
        }
        if a == INFINITE {
            return if b == INFINITE && a_negative != b_negative {
                Float { bits: QUIET }
            } else {
                self
            };
        }
        if b == INFINITE {
            return other;
        }
        proof {
            lemma_zero_units();
            if a > 0 {
                lemma_increasing(0, a as nat);
            }
            if b > 0 {
                lemma_increasing(0, b as nat);
            }
            if a < b {
                lemma_increasing(a as nat, b as nat);
            }
            if b < a {
                lemma_increasing(b as nat, a as nat);
            }
        }
        let subtract: bool = a_negative != b_negative;
        if (a == 0 && b == 0) || (subtract && a == b) {
            return with_sign(a_negative && b_negative, 0);
        }
        let ghost exact = self.units() + other.units();
        if a >= b {
            let m: u64 = combine_magnitudes(a, b, subtract);
            proof {
                lemma_round_is(m as nat, magnitude_of(exact), 1);
            }
            with_sign(a_negative, m)
        } else {
            let m: u64 = combine_magnitudes(b, a, subtract);
            proof {
                lemma_round_is(m as nat, magnitude_of(exact), 1);
            }
            with_sign(b_negative, m)
        }
    }

    /// The quotient.
    pub fn over(self, other: Float) -> (r: Float)
        ensures
            r == quotient_of(self, other),
    {
        let a: u64 = self.bits % SIGN;
        let b: u64 = other.bits % SIGN;
        let negative: bool = (self.bits >= SIGN) != (other.bits >= SIGN);
        if a > INFINITE || b > INFINITE || (a == INFINITE && b == INFINITE) || (a == 0 && b == 0) {
            return Float { bits: QUIET };
        }
        if a == INFINITE || b == 0 {
            return with_sign(negative, INFINITE);
        }
        if b == INFINITE {
            return with_sign(negative, 0);
        }
        proof {
            lemma_zero_units();
            lemma_increasing(0, b as nat);
        }
        if a == 0 {
            proof {
                lemma_mul_by_zero_is_zero(pow2(1074) as int);
                lemma_zero_rounds(mag_units(b as nat));
            }
            return with_sign(negative, 0);
        }
        let m: u64 = divide_magnitudes(a, b);
        proof {
            lemma_round_is(m as nat, mag_units(a as nat) * pow2(1074), mag_units(b as nat));
        }
        with_sign(negative, m)
    }

    /// The number nearest to an integer.
    pub fn nearest(i: i128) -> (r: Float)
        ensures
            r == nearest_int(i as int),
    {
        if i == 0 {
            proof {
                assert(0 * pow2(1074) == 0);
                lemma_zero_rounds(1);
            }
            return Float { bits: 0 };
        }
        let negative: bool = i < 0;
        let m: u128 = if i == i128::MIN {
            0x8000_0000_0000_0000_0000_0000_0000_0000
        } else if negative {
            (-i) as u128
        } else {
            i as u128
        };
        let ghost num = magnitude_of(i as int) * pow2(1074);
        let r: u64 = round_scaled(m, 1074, false, Ghost(num), Ghost(1));
        proof {
            lemma_round_is(r as nat, num, 1);
        }
        with_sign(negative, r)
    }

    /// Whether the number is less than another.
    pub fn lt(self, other: Float) -> (r: bool)
        ensures
            r == self.less(other),
    {
        let a: u64 = self.bits % SIGN;
        let b: u64 = other.bits % SIGN;
        proof {
            lemma_by_magnitude(self, other);
        }
        if a > INFINITE || b > INFINITE {
            false
        } else if self.bits >= SIGN {
            if other.bits >= SIGN {
                a > b
            } else {
                a > 0 || b > 0
            }
        } else {
            other.bits < SIGN && a < b
        }
    }

    /// The lesser of two numbers, of two zeros the negative one; where one is not a number, the
    /// other.
    pub fn min(self, other: Float) -> (r: Float)
        ensures
            r == min_of(self, other),
    {
        if self.is_nan() && other.is_nan() {
            Float { bits: QUIET }
        } else if self.is_nan() || other.lt(self) || (other.eq(self) && other.bits >= SIGN) {
            other
        } else {
            self
        }
    }

    /// The greater of two numbers, of two zeros the positive one; where one is not a number, the
    /// other.
    pub fn max(self, other: Float) -> (r: Float)
        ensures
            r == max_of(self, other),
    {
        if self.is_nan() && other.is_nan() {
            Float { bits: QUIET }
        } else if self.is_nan() || self.lt(other) || (other.eq(self) && other.bits < SIGN) {
            other
        } else {
            self
        }
    }

    /// Whether the two are equal as numbers.
    pub fn eq(self, other: Float) -> (r: bool)
        ensures
            r == self.same(other),
    {
        let a: u64 = self.bits % SIGN;
        let b: u64 = other.bits % SIGN;
        proof {
            lemma_by_magnitude(self, other);
        }
        a <= INFINITE && a == b && (a == 0 || (self.bits >= SIGN) == (other.bits >= SIGN))
    }
}

pub(crate) proof fn lemma_zero_units()
    ensures
        mag_units(0) == 0,
{
    let p = pow2(scale(0));
    assert(significand(0) == 0);
    assert(0 * p == 0);
}

pub(crate) proof fn lemma_zero_rounds(den: nat)
    requires
        den > 0,
    ensures
        rounds_to(0, 0, den),
        round(0, den) == 0,
{
    lemma_zero_units();
    lemma_increasing(0, 1);
    assert((mag_units(0) + mag_units(1)) * den > 0) by (nonlinear_arith)
        requires
            mag_units(0) + mag_units(1) > 0,
            den > 0,
    ;
    lemma_round_is(0, 0, den);
}

/// Values are ordered as magnitudes are.
pub proof fn lemma_by_magnitude(a: Float, b: Float)
    ensures
        mag_units(a.mag()) < mag_units(b.mag()) <==> a.mag() < b.mag(),
        mag_units(a.mag()) == mag_units(b.mag()) <==> a.mag() == b.mag(),
        mag_units(a.mag()) > 0 <==> a.mag() > 0,
        mag_units(b.mag()) > 0 <==> b.mag() > 0,
{
    lemma_zero_units();
    if a.mag() > 0 {
        lemma_increasing(0, a.mag());
    }
    if b.mag() > 0 {
        lemma_increasing(0, b.mag());
    }
    if a.mag() < b.mag() {
        lemma_increasing(a.mag(), b.mag());
    }
    if b.mag() < a.mag() {
        lemma_increasing(b.mag(), a.mag());
    }
}

/// A sum does not depend on the order of its two parts.
pub proof fn lemma_sum_commutes(a: Float, b: Float)
    ensures
        sum_of(a, b) == sum_of(b, a),
{
    if !a.is_nan_spec() && !b.is_nan_spec() && a.is_infinite() && b.is_infinite() && a.negative()
        == b.negative() {
        assert(a.bits == b.bits);
    }
}

/// Two numbers that are equal and of one sign are the same.
proof fn lemma_same_bits(a: Float, b: Float)
    ensures
        a.same(b) && a.negative() == b.negative() ==> a == b,
{
    lemma_by_magnitude(a, b);
}

/// The lesser and the greater of numbers depend neither on their order nor on their grouping.
pub proof fn lemma_min_max(a: Float, b: Float, c: Float)
    ensures
        min_of(a, b) == min_of(b, a),
        max_of(a, b) == max_of(b, a),
        min_of(min_of(a, b), c) == min_of(a, min_of(b, c)),
        max_of(max_of(a, b), c) == max_of(a, max_of(b, c)),
{
    lemma_same_bits(a, b);
    lemma_same_bits(b, a);
    lemma_same_bits(b, c);
    lemma_same_bits(c, b);
    lemma_same_bits(a, c);
    lemma_same_bits(c, a);
}

/// Up to this many steps of a grid are numbers.
pub open spec fn whole_limit() -> nat {
    0x20_0000_0000_0000
}

/// A magnitude is the nearest one to its own value.
pub(crate) proof fn lemma_round_exact(m: nat)
    requires
        m < INFINITE,
    ensures
        rounds_to(m, mag_units(m), 1),
        round(mag_units(m), 1) == m,
{
    if m > 0 {
        lemma_increasing((m - 1) as nat, m);
    }
    lemma_increasing(m, m + 1);
    lemma_round_is(m, mag_units(m), 1);
}

/// A positive integer has a number of bits.
pub(crate) proof fn lemma_length(i: nat)
    requires
        i > 0,
    ensures
        exists|l: nat| l > 0 && #[trigger] pow2((l - 1) as nat) <= i < pow2(l),
    decreases i,
{
    lemma2_to64();
    if i == 1 {
        assert(pow2((1 - 1) as nat) <= i < pow2(1));
    } else {
        lemma_length(i / 2);
        let l = choose|l: nat| l > 0 && #[trigger] pow2((l - 1) as nat) <= i / 2 < pow2(l);
        lemma_pow2_unfold(l);
        lemma_pow2_unfold(l + 1);
        assert(pow2((l + 1 - 1) as nat) <= i < pow2(l + 1));
    }
}

/// The number nearest to `i` steps of 2 to the power `k` units.
pub open spec fn on_grid(i: int, k: nat) -> Float {
    signed(i < 0, round(magnitude_of(i) * pow2(k), 1))
}

/// A number of steps that is not too large is a number.
pub(crate) proof fn lemma_grid_magnitude(i: nat, k: nat)
    requires
        i <= whole_limit(),
        k <= 1200,
    ensures
        exists|m: nat| m < INFINITE && #[trigger] mag_units(m) == i * pow2(k),
{
    lemma2_to64();
    lemma2_to64_rest();
    if i == 0 {
        lemma_zero_units();
        assert(0 * pow2(k) == 0);
        assert(mag_units(0) == i * pow2(k));
    } else if i == whole_limit() {
        lemma_place(k, i);
        assert(place(k, i) < INFINITE) by (nonlinear_arith)
            requires
                place(k, i) == k * (STEP as nat) + i,
                k <= 1200,
                i <= 0x20_0000_0000_0000,
                STEP == 0x10_0000_0000_0000,
                INFINITE == 0x7ff0_0000_0000_0000,
        ;
    } else {
        lemma_length(i);
        let l = choose|l: nat| l > 0 && #[trigger] pow2((l - 1) as nat) <= i < pow2(l);
        if l > 53 {
            if l > 54 {
                lemma_pow2_strictly_increases(53, (l - 1) as nat);
            }
        }
        let s = (53 - l) as nat;
        let (x, t): (nat, nat) = if k >= s {
            ((k - s) as nat, s)
        } else {
            (0, k)
        };
        let q = i * pow2(t);
        lemma_pow2_pos(t);
        lemma_pow2_adds((l - 1) as nat, t);
        lemma_pow2_adds(l, t);
        assert(q >= pow2((l - 1) as nat) * pow2(t)) by (nonlinear_arith)
            requires
                q == i * pow2(t),
                i >= pow2((l - 1) as nat),
        ;
        assert(q < pow2(l) * pow2(t)) by (nonlinear_arith)
            requires
                q == i * pow2(t),
                i < pow2(l),
                pow2(t) > 0,
        ;
        if l + t < 53 {
            lemma_pow2_strictly_increases(l + t, 53);
        }
        lemma_place(x, q);
        lemma_pow2_adds(t, x);
        assert(q * pow2(x) == i * pow2(k)) by (nonlinear_arith)
            requires
                q == i * pow2(t),
                pow2(t) * pow2(x) == pow2(k),
        ;
        assert(place(x, q) < INFINITE) by (nonlinear_arith)
            requires
                place(x, q) == x * (STEP as nat) + q,
                x <= 1200,
                q < 0x20_0000_0000_0000,
                STEP == 0x10_0000_0000_0000,
                INFINITE == 0x7ff0_0000_0000_0000,
        ;
    }
}

/// A number of steps that is not too large is a number, and its own nearest one.
pub proof fn lemma_grid(i: int, k: nat)
    requires
        magnitude_of(i) <= whole_limit(),
        k <= 1074,
    ensures
        on_grid(i, k).units() == i * pow2(k),
        on_grid(i, k).mag() < INFINITE,
        on_grid(i, k).negative() == (i < 0),
        on_grid(0, k) == (Float { bits: 0 }),
{
    let n = magnitude_of(i);
    lemma_grid_magnitude(n, k);
    let m = choose|m: nat| m < INFINITE && #[trigger] mag_units(m) == n * pow2(k);
    lemma_round_exact(m);
    assert(0 * pow2(k) == 0);
    lemma_zero_rounds(1);
    assert((-n) * pow2(k) == -(n * pow2(k))) by (nonlinear_arith);
}

/// Different numbers of steps are different numbers.
pub proof fn lemma_grid_injective(i: int, j: int, k: nat)
    requires
        magnitude_of(i) <= whole_limit(),
        magnitude_of(j) <= whole_limit(),
        k <= 1074,
        on_grid(i, k) == on_grid(j, k),
    ensures
        i == j,
{
    lemma_grid(i, k);
    lemma_grid(j, k);
    let p = pow2(k);
    lemma_pow2_pos(k);
    assert(i * p == j * p ==> i == j) by (nonlinear_arith)
        requires
            p > 0,
    ;
}

/// The number nearest to an integer is so many steps of any finer grid.
pub proof fn lemma_integer_on_grid(i: int, k: nat)
    requires
        k <= 1074,
    ensures
        nearest_int(i) == on_grid(i * pow2((1074 - k) as nat), k),
{
    let up = pow2((1074 - k) as nat);
    lemma_pow2_pos((1074 - k) as nat);
    lemma_pow2_adds((1074 - k) as nat, k);
    lemma_magnitude_times(i, up);
    let n = magnitude_of(i);
    assert((n * up) * pow2(k) == n * pow2(1074)) by (nonlinear_arith)
        requires
            up * pow2(k) == pow2(1074),
    ;
}

/// Sums and differences of steps that are not too many are exact.
pub proof fn lemma_grid_sum(a: int, b: int, k: nat)
    requires
        magnitude_of(a) <= whole_limit(),
        magnitude_of(b) <= whole_limit(),
        k <= 1074,
    ensures
        magnitude_of(a + b) <= whole_limit() ==> sum_of(on_grid(a, k), on_grid(b, k)) == on_grid(
            a + b,
            k,
        ),
        magnitude_of(a - b) <= whole_limit() ==> difference(on_grid(a, k), on_grid(b, k)) == on_grid(
            a - b,
            k,
        ),
{
    lemma_grid(a, k);
    lemma_grid(b, k);
    let one = pow2(k);
    lemma_pow2_pos(k);
    assert(a * one + b * one == (a + b) * one) by (nonlinear_arith);
    assert(a * one - b * one == (a - b) * one) by (nonlinear_arith);
    let y = opposite(on_grid(b, k));
    assert(y.mag() == on_grid(b, k).mag() && y.negative() != on_grid(b, k).negative());
    lemma_magnitude_times(a + b, one);
    lemma_magnitude_times(a - b, one);
    if a + b == 0 {
        assert(0 * one == 0);
    }
    if a - b == 0 {
        assert(0 * one == 0);
    }
}

pub(crate) proof fn lemma_magnitude_times(i: int, one: nat)
    requires
        one > 0,
    ensures
        magnitude_of(i * one) == magnitude_of(i) * one,
        i * one < 0 <==> i < 0,
        i * one == 0 <==> i == 0,
{
    assert(i < 0 ==> i * one < 0) by (nonlinear_arith)
        requires
            one > 0,
    ;
    assert(i > 0 ==> i * one > 0) by (nonlinear_arith)
        requires
            one > 0,
    ;
    assert((-i) * one == -(i * one)) by (nonlinear_arith);
    assert(0 * one == 0);
}

/// Opposite numbers, either taken first.
pub proof fn lemma_opposite_sum(a: Float, b: Float)
    requires
        a.mag() == b.mag(),
    ensures
        sum_of(difference(a, sum_of(a, b)), b) == sum_of(difference(b, sum_of(b, a)), a),
{
    lemma_sum_commutes(a, b);
    if a.negative() == b.negative() {
        assert(a.bits == b.bits);
    } else if a.mag() < INFINITE {
        lemma_zero_units();
        assert(sum_of(a, b) == (Float { bits: 0 }));
        let minus = opposite(Float { bits: 0 });
        assert(minus.mag() == 0 && minus.negative());
        assert(minus.units() == 0);
        lemma_round_exact(a.mag());
        if a.mag() > 0 {
            lemma_increasing(0, a.mag());
            assert(difference(a, Float { bits: 0 }) == a);
            assert(difference(b, Float { bits: 0 }) == b);
        }
        lemma_sum_commutes(a, b);
    }
}

/// The nearest magnitude is at least `m`, as far as the place below it tells.
spec fn reaches(m: nat, num: nat, den: nat) -> bool {
    m > 0 ==> {
        let low = mag_units((m - 1) as nat) + mag_units(m);
        low * den < 2 * num || (low * den == 2 * num && m % 2 == 0)
    }
}

proof fn lemma_round_exists_below(num: nat, den: nat, m: nat)
    requires
        m <= INFINITE,
        forall|k: nat| m < k <= INFINITE ==> !#[trigger] reaches(k, num, den),
    ensures
        exists|r: nat| rounds_to(r, num, den),
    decreases m,
{
    if reaches(m, num, den) {
        if m < INFINITE {
            assert(!reaches((m + 1) as nat, num, den));
        }
        assert(rounds_to(m, num, den));
    } else {
        lemma_round_exists_below(num, den, (m - 1) as nat);
    }
}

/// There is a nearest magnitude.
pub proof fn lemma_round_exists(num: nat, den: nat)
    ensures
        rounds_to(round(num, den), num, den),
{
    lemma_round_exists_below(num, den, INFINITE as nat);
}

/// A greater value has no lesser nearest magnitude.
pub proof fn lemma_round_monotone(low: nat, high: nat)
    requires
        low <= high,
    ensures
        round(low, 1) <= round(high, 1),
{
    lemma_round_exists(low, 1);
    lemma_round_exists(high, 1);
    let a = round(low, 1);
    let b = round(high, 1);
    if b < a {
        if b + 1 < a {
            lemma_increasing(b, (a - 1) as nat);
            lemma_increasing(b + 1, a);
        }
    }
}

/// The number nearest to `v` units.
pub open spec fn nearest_units(v: int) -> Float {
    signed(v < 0, round(magnitude_of(v), 1))
}

pub(crate) proof fn lemma_nearest_units(v: int)
    ensures
        nearest_units(v).mag() == round(magnitude_of(v), 1),
        nearest_units(v).negative() == (v < 0),
        nearest_units(v).mag() <= INFINITE,
{
    lemma_round_exists(magnitude_of(v), 1);
}

/// A greater value has no lesser nearest number.
pub proof fn lemma_nearest_monotone(v: int, w: int)
    requires
        v <= w,
    ensures
        nearest_units(v).units() <= nearest_units(w).units(),
        !nearest_units(v).is_nan_spec(),
{
    lemma_nearest_units(v);
    lemma_nearest_units(w);
    let a = round(magnitude_of(v), 1);
    let b = round(magnitude_of(w), 1);
    if v >= 0 {
        lemma_round_monotone(magnitude_of(v), magnitude_of(w));
        if a < b {
            lemma_increasing(a, b);
        }
    } else if w < 0 {
        lemma_round_monotone(magnitude_of(w), magnitude_of(v));
        if b < a {
            lemma_increasing(b, a);
        }
    }
}

/// A number is the nearest one to its own value, and an integer is taken as so many units.
pub proof fn lemma_nearest_of(f: Float, i: int)
    ensures
        !f.is_nan_spec() ==> nearest_units(f.units()).units() == f.units(),
        nearest_int(i) == nearest_units(i * pow2(1074)),
{
    if !f.is_nan_spec() {
        let m = f.mag();
        if m > 0 {
            lemma_zero_units();
            lemma_increasing(0, m);
            lemma_increasing((m - 1) as nat, m);
        }
        if m < INFINITE {
            lemma_increasing(m, m + 1);
        }
        assert(rounds_to(m, mag_units(m), 1));
        lemma_round_is(m, mag_units(m), 1);
        lemma_nearest_units(f.units());
    }
    lemma_pow2_pos(1074);
    lemma_magnitude_times(i, pow2(1074));
}

/// The magnitude from which on numbers may lie further apart than integers.
pub const COARSE: u64 = 0x4340_0000_0000_0000;

/// The magnitude from which on numbers may be coarse is that of the last integer up to which all are
/// numbers.
pub(crate) proof fn lemma_coarse()
    ensures
        mag_units(COARSE as nat) == whole_limit() * pow2(1074),
{
    let one = pow2(1074);
    lemma2_to64_rest();
    lemma_pow2_unfold(1075);
    assert(scale(COARSE as nat) == 1075);
    assert(significand(COARSE as nat) == STEP as nat);
    assert(0x10_0000_0000_0000 * (2 * one) == 0x20_0000_0000_0000 * one) by (nonlinear_arith);
}

/// No magnitude is nearer to a value than the one nearest to it.
pub(crate) proof fn lemma_round_nearest(num: nat, m: nat)
    ensures
        magnitude_of(mag_units(round(num, 1)) - num) <= magnitude_of(mag_units(m) - num) || m
            > INFINITE,
{
    lemma_round_exists(num, 1);
    let r = round(num, 1);
    if m < r {
        if m + 1 < r {
            lemma_increasing(m, (r - 1) as nat);
        }
        lemma_increasing((r - 1) as nat, r);
    } else if r < m <= INFINITE {
        if r + 1 < m {
            lemma_increasing(r + 1, m);
        }
        lemma_increasing(r, r + 1);
    }
}

/// An integer whose nearest number is not coarse is that number.
pub proof fn lemma_fine_is_exact(i: int)
    requires
        nearest_int(i).mag() < COARSE,
    ensures
        nearest_int(i).units() == i * pow2(1074),
{
    let one = pow2(1074);
    lemma_pow2_pos(1074);
    if magnitude_of(i) > whole_limit() {
        let top = whole_limit() * one;
        lemma_coarse();
        lemma_round_exact(COARSE as nat);
        assert(top <= magnitude_of(i) * one) by (nonlinear_arith)
            requires
                top == whole_limit() * one,
                magnitude_of(i) >= whole_limit(),
        ;
        lemma_round_monotone(top, magnitude_of(i) * one);
        lemma_nearest_of(Float { bits: 0 }, i);
        lemma_magnitude_times(i, one);
        lemma_nearest_units(i * one);
    } else {
        lemma_grid(i, 1074);
    }
}

/// Compares a magnitude with a natural number: negative, zero or positive as the magnitude is less,
/// equal or greater.
fn compare_magnitude(m: u64, n: u128) -> (r: i32)
    requires
        m <= INFINITE,
        n <= 0x8000_0000_0000_0000_0000_0000_0000_0000,
    ensures
        r < 0 <==> mag_units(m as nat) < n * pow2(1074),
        r == 0 <==> mag_units(m as nat) == n * pow2(1074),
{
    let ghost one = pow2(1074);
    proof {
        lemma2_to64();
        lemma2_to64_rest();
        lemma_pow2_pos(1074);
        lemma_pow2_adds(64, 63);
        lemma_pow2_adds(64, 64);
        lemma_pow2_adds(53, 75);
        lemma_pow2_adds(52, 76);
        lemma_pow2_adds(53, 53);
    }
    if m == INFINITE {
        proof {
            assert(scale(INFINITE as nat) == 2046);
            lemma_pow2_adds(52, 2046);
            lemma_pow2_adds(127, 1074);
            lemma_pow2_strictly_increases(1201, 2098);
            assert(n * one <= pow2(127) * one) by (nonlinear_arith)
                requires
                    n <= pow2(127),
            ;
        }
        return 1;
    }
    let (x, q) = split(m);
    let ghost p = pow2(x as nat);
    proof {
        lemma_pow2_pos(x as nat);
    }
    if x >= 1074 {
        let d: i32 = x - 1074;
        proof {
            lemma_pow2_adds(d as nat, 1074);
            lemma_pow2_pos(d as nat);
        }
        let ghost e = pow2(d as nat);
        assert(q * p == (q * e) * one) by (nonlinear_arith)
            requires
                p == e * one,
        ;
        if d > 75 {
            proof {
                if d > 76 {
                    lemma_pow2_strictly_increases(76, d as nat);
                }
                assert(q * e > n) by (nonlinear_arith)
                    requires
                        q >= pow2(52),
                        e >= pow2(76),
                        pow2(52) * pow2(76) == pow2(128),
                        pow2(128) > n,
                ;
                lemma_cancel(n as int, (q * e) as int, one as int);
            }
            return 1;
        }
        proof {
            if d < 75 {
                lemma_pow2_strictly_increases(d as nat, 75);
            }
            assert(q * e < pow2(128)) by (nonlinear_arith)
                requires
                    q < pow2(53),
                    0 < e <= pow2(75),
                    pow2(53) * pow2(75) == pow2(128),
            ;
            lemma_cancel((q * e) as int, n as int, one as int);
        }
        let v: u128 = q as u128 * power(d as u32);
        if v < n {
            -1
        } else if v == n {
            0
        } else {
            1
        }
    } else {
        let d: i32 = 1074 - x;
        let ghost e = pow2(d as nat);
        proof {
            lemma_pow2_adds(d as nat, x as nat);
            lemma_pow2_pos(d as nat);
        }
        assert(n * one == (n * e) * p) by (nonlinear_arith)
            requires
                one == e * p,
        ;
        proof {
            lemma_cancel(q as int, (n * e) as int, p as int);
            lemma_cancel((n * e) as int, q as int, p as int);
        }
        if n == 0 {
            assert(n * e == 0) by (nonlinear_arith)
                requires
                    n == 0,
            ;
            return if q == 0 {
                0
            } else {
                1
            };
        }
        if d >= 53 || n >= 0x20_0000_0000_0000 {
            proof {
                if d > 53 {
                    lemma_pow2_strictly_increases(53, d as nat);
                }
                assert(n * e >= pow2(53)) by (nonlinear_arith)
                    requires
                        n >= 1,
                        e >= 1,
                        e >= pow2(53) || n >= pow2(53),
                ;
            }
            return -1;
        }
        proof {
            lemma_pow2_strictly_increases(d as nat, 53);
            assert(n * e < pow2(106)) by (nonlinear_arith)
                requires
                    n < pow2(53),
                    0 < e < pow2(53),
                    pow2(53) * pow2(53) == pow2(106),
            ;
            lemma_pow2_strictly_increases(106, 128);
        }
        let w: u128 = n * power(d as u32);
        if (q as u128) < w {
            -1
        } else if q as u128 == w {
            0
        } else {
            1
        }
    }
}

impl Float {
    /// Compares the number with an integer by value: negative, zero or positive as it is less, equal
    /// or greater.
    pub fn compare_int(self, i: i128) -> (r: i32)
        requires
            !self.is_nan_spec(),
        ensures
            r < 0 <==> self.units() < i * pow2(1074),
            r == 0 <==> self.units() == i * pow2(1074),
    {
        let m: u64 = self.bits % SIGN;
        let negative: bool = self.bits >= SIGN;
        proof {
            lemma_pow2_pos(1074);
            lemma_magnitude_times(i as int, pow2(1074));
            lemma_zero_units();
            if m > 0 {
                lemma_increasing(0, m as nat);
            }
        }
        if i < 0 {
            let n: u128 = if i == i128::MIN {
                0x8000_0000_0000_0000_0000_0000_0000_0000
            } else {
                (-i) as u128
            };
            if !negative || m == 0 {
                return 1;
            }
            let c: i32 = compare_magnitude(m, n);
            if c < 0 {
                1
            } else if c == 0 {
                0
            } else {
                -1
            }
        } else {
            if negative && m > 0 {
                return -1;
            }
            compare_magnitude(m, i as u128)
        }
    }
}

} // verus!
