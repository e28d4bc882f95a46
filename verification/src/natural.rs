//! Natural numbers of any size, as little-endian vectors of 32-bit limbs.

use vstd::prelude::*;

verus! {

/// The weight of limb `n`.
pub open spec fn weight(n: nat) -> nat
    decreases n,
{
    if n == 0 {
        1
    } else {
        0x1_0000_0000 * weight((n - 1) as nat)
    }
}

/// Limb `i`, zero above the last.
pub open spec fn limb(v: Seq<u32>, i: nat) -> nat {
    if i < v.len() {
        v[i as int] as nat
    } else {
        0
    }
}

/// The number that the first `n` limbs stand for.
pub open spec fn low_part(v: Seq<u32>, n: nat) -> nat
    decreases n,
{
    if n == 0 {
        0
    } else {
        low_part(v, (n - 1) as nat) + limb(v, (n - 1) as nat) * weight((n - 1) as nat)
    }
}

/// The number that the limbs stand for.
pub open spec fn value(v: Seq<u32>) -> nat {
    low_part(v, v.len())
}

proof fn lemma_weight_pos(n: nat)
    ensures
        weight(n) > 0,
    decreases n,
{
    if n > 0 {
        lemma_weight_pos((n - 1) as nat);
    }
}

proof fn lemma_low_same(a: Seq<u32>, b: Seq<u32>, n: nat)
    requires
        forall|i: nat| i < n ==> limb(a, i) == limb(b, i),
    ensures
        low_part(a, n) == low_part(b, n),
    decreases n,
{
    if n > 0 {
        lemma_low_same(a, b, (n - 1) as nat);
    }
}

proof fn lemma_above_last(v: Seq<u32>, n: nat)
    requires
        n >= v.len(),
    ensures
        low_part(v, n) == value(v),
    decreases n,
{
    if n > v.len() {
        lemma_above_last(v, (n - 1) as nat);
        assert(0 * weight((n - 1) as nat) == 0);
    }
}

/// What the low limbs stand for is less than the weight of the next one.
proof fn lemma_low_bound(v: Seq<u32>, n: nat)
    ensures
        low_part(v, n) < weight(n),
    decreases n,
{
    if n > 0 {
        let k = (n - 1) as nat;
        lemma_low_bound(v, k);
        let w = weight(k);
        let d = limb(v, k);
        assert(low_part(v, k) + d * w < 0x1_0000_0000 * w) by (nonlinear_arith)
            requires
                low_part(v, k) < w,
                d <= 0xffff_ffff,
        ;
    }
}

/// Multiplies by `k` and adds `c`.
pub fn multiply_and_raise(v: &mut Vec<u32>, k: u64, c: u32)
    ensures
        value(final(v)@) == value(old(v)@) * k + c,
{
    let ghost was = v@;
    let n: usize = v.len();
    let mut carry: u128 = c as u128;
    let mut i: usize = 0;
    proof {
        assert(weight(0) == 1);
        assert(low_part(was, 0) == 0 && 0 * k == 0);
        assert(carry * 1 == carry);
    }
    while i < n
        invariant
            n == was.len(),
            v@.len() == n,
            i <= n,
            carry <= 0xffff_ffff_ffff_ffff,
            forall|j: int| i <= j < n ==> v@[j] == was[j],
            low_part(v@, i as nat) + carry * weight(i as nat) == low_part(was, i as nat) * k + c,
        decreases n - i,
    {
        let digit: u32 = v[i];
        assert(digit * k + carry <= 0xffff_ffff * 0xffff_ffff_ffff_ffff + 0xffff_ffff_ffff_ffff)
            by (nonlinear_arith)
            requires
                digit <= 0xffff_ffff,
                k <= 0xffff_ffff_ffff_ffff,
                carry <= 0xffff_ffff_ffff_ffff,
        ;
        let t: u128 = digit as u128 * k as u128 + carry;
        let ghost before = v@;
        v.set(i, (t % 0x1_0000_0000) as u32);
        carry = t / 0x1_0000_0000;
        proof {
            let w = weight(i as nat);
            lemma_low_same(before, v@, i as nat);
            let low = low_part(v@, i as nat);
            let kept = (t % 0x1_0000_0000) as nat;
            assert(kept * w + carry * (0x1_0000_0000 * w) == t * w) by (nonlinear_arith)
                requires
                    kept + carry * 0x1_0000_0000 == t,
            ;
            let wl = low_part(was, i as nat);
            let ca = (t - digit * k) as nat;
            assert((wl + digit * w) * k + c == (wl * k + c) + (digit * k) * w) by (nonlinear_arith);
            assert(t * w == (digit * k) * w + ca * w) by (nonlinear_arith)
                requires
                    t == digit * k + ca,
            ;
        }
        i = i + 1;
    }
    while carry > 0
        invariant
            value(v@) + carry * weight(v@.len()) == value(was) * k + c,
        decreases carry,
    {
        let kept: u32 = (carry % 0x1_0000_0000) as u32;
        let rest: u128 = carry / 0x1_0000_0000;
        let ghost before = v@;
        v.push(kept);
        proof {
            let w = weight(before.len());
            lemma_low_same(before, v@, before.len());
            assert(kept * w + rest * (0x1_0000_0000 * w) == carry * w) by (nonlinear_arith)
                requires
                    kept + rest * 0x1_0000_0000 == carry,
            ;
        }
        carry = rest;
    }
    proof {
        assert(0 * weight(v@.len()) == 0);
    }
}

/// Multiplies by 2 to the power `k`.
pub fn double_times(v: &mut Vec<u32>, k: u32)
    ensures
        value(final(v)@) == value(old(v)@) * vstd::arithmetic::power2::pow2(k as nat),
{
    let ghost was = v@;
    let mut left: u32 = k;
    proof {
        vstd::arithmetic::power2::lemma2_to64();
        vstd::arithmetic::power2::lemma2_to64_rest();
    }
    while left > 0
        invariant
            left <= k,
            value(v@) * vstd::arithmetic::power2::pow2(left as nat) == value(was)
                * vstd::arithmetic::power2::pow2(k as nat),
            vstd::arithmetic::power2::pow2(32) == 0x1_0000_0000,
            vstd::arithmetic::power2::pow2(1) == 2,
        decreases left,
    {
        let ghost before = value(v@);
        let (step, factor): (u32, u64) = if left >= 32 {
            (32, 0x1_0000_0000)
        } else {
            (1, 2)
        };
        multiply_and_raise(v, factor, 0);
        proof {
            vstd::arithmetic::power2::lemma_pow2_adds(step as nat, (left - step) as nat);
            let rest = vstd::arithmetic::power2::pow2((left - step) as nat);
            assert((before * factor) * rest == before * (factor * rest)) by (nonlinear_arith);
        }
        left = left - step;
    }
    proof {
        vstd::arithmetic::power2::lemma2_to64();
        assert(value(v@) * 1 == value(v@));
    }
}

/// Compares two numbers: negative, zero or positive as `a` is less, equal or greater.
pub fn compare(a: &Vec<u32>, b: &Vec<u32>) -> (r: i32)
    ensures
        r < 0 <==> value(a@) < value(b@),
        r == 0 <==> value(a@) == value(b@),
{
    let n: usize = if a.len() > b.len() {
        a.len()
    } else {
        b.len()
    };
    proof {
        lemma_above_last(a@, n as nat);
        lemma_above_last(b@, n as nat);
    }
    let mut i: usize = n;
    while i > 0
        invariant
            i <= n,
            value(a@) - low_part(a@, i as nat) == value(b@) - low_part(b@, i as nat),
        decreases i,
    {
        let k: usize = i - 1;
        let x: u32 = if k < a.len() {
            a[k]
        } else {
            0
        };
        let y: u32 = if k < b.len() {
            b[k]
        } else {
            0
        };
        proof {
            lemma_low_bound(a@, k as nat);
            lemma_low_bound(b@, k as nat);
            let w = weight(k as nat);
            assert(x < y ==> x * w + w <= y * w) by (nonlinear_arith);
            assert(x > y ==> y * w + w <= x * w) by (nonlinear_arith);
        }
        if x < y {
            return -1;
        }
        if x > y {
            return 1;
        }
        i = k;
    }
    0
}

} // verus!
