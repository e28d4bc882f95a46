//! Numbers written in decimal: integers, and floating-point numbers read to the nearest one.

use crate::float;
use crate::float::{bit_length, power, round_scaled, split, with_sign, Float, INFINITE, QUIET, STEP};
use crate::natural;
use crate::natural::{compare, double_times, multiply_and_raise};
use crate::text::chars_of;
use vstd::arithmetic::power2::*;
use vstd::prelude::*;

verus! {

pub open spec fn is_digit(c: char) -> bool {
    48 <= c as u32 <= 57
}

pub open spec fn digit_value(c: char) -> nat {
    (c as u32 - 48) as nat
}

/// How many digits in a row stand at `from`.
pub open spec fn digit_run(s: Seq<char>, from: int) -> nat
    decreases s.len() - from,
{
    if 0 <= from < s.len() && is_digit(s[from]) {
        1 + digit_run(s, from + 1)
    } else {
        0
    }
}

/// The number that a sequence of digits stands for.
pub open spec fn digits_value(s: Seq<char>) -> nat
    decreases s.len(),
{
    if s.len() == 0 {
        0
    } else {
        digits_value(s.drop_last()) * 10 + digit_value(s.last())
    }
}

pub open spec fn has_sign(s: Seq<char>) -> bool {
    s.len() > 0 && (s[0] == '+' || s[0] == '-')
}

pub open spec fn is_minus(s: Seq<char>) -> bool {
    s.len() > 0 && s[0] == '-'
}

/// What follows the sign.
pub open spec fn unsigned(s: Seq<char>) -> Seq<char> {
    if has_sign(s) {
        s.skip(1)
    } else {
        s
    }
}

/// The integer written by `s`: digits, with a sign before them or not.
pub open spec fn integer_of(s: Seq<char>) -> Option<int> {
    let body = unsigned(s);
    if body.len() == 0 || digit_run(body, 0) != body.len() {
        None
    } else if is_minus(s) {
        Some(-(digits_value(body) as int))
    } else {
        Some(digits_value(body) as int)
    }
}

/// The decimal number written by `s` as whole digits and a power of ten: digits with a point among
/// them or not, and an exponent or not.
pub open spec fn decimal_of(s: Seq<char>) -> Option<(nat, int)> {
    let whole = digit_run(s, 0);
    let point = whole < s.len() && s[whole as int] == '.';
    let part = if point {
        digit_run(s, whole as int + 1)
    } else {
        0
    };
    let end = if point {
        whole + 1 + part
    } else {
        whole
    };
    if whole + part == 0 {
        None
    } else {
        let digits = digits_value(
            if point {
                s.take(whole as int) + s.subrange(whole as int + 1, end as int)
            } else {
                s.take(whole as int)
            },
        );
        if end == s.len() {
            Some((digits, -(part as int)))
        } else if s[end as int] == 'e' || s[end as int] == 'E' {
            match integer_of(s.skip(end as int + 1)) {
                Some(x) => Some((digits, x - part)),
                None => None,
            }
        } else {
            None
        }
    }
}

/// Ten to the power `k`.
pub open spec fn ten(k: nat) -> nat
    decreases k,
{
    if k == 0 {
        1
    } else {
        10 * ten((k - 1) as nat)
    }
}

/// `digits` times ten to the power `exponent`, in units of the smallest positive number, is the
/// quotient of these two.
pub open spec fn numerator(digits: nat, exponent: int) -> nat {
    digits * ten(
        if exponent > 0 {
            exponent as nat
        } else {
            0
        },
    ) * pow2(1074)
}

pub open spec fn denominator(exponent: int) -> nat {
    ten(
        if exponent < 0 {
            (-exponent) as nat
        } else {
            0
        },
    )
}

/// The magnitude nearest to `digits` times ten to the power `exponent`.
pub open spec fn nearest_decimal(digits: nat, exponent: int) -> nat {
    float::round(numerator(digits, exponent), denominator(exponent))
}

/// The code of a character, an upper-case ASCII letter taken as its lower-case one.
pub open spec fn folded(c: char) -> u32 {
    if 65 <= c as u32 <= 90 {
        (c as u32 + 32) as u32
    } else {
        c as u32
    }
}

/// `s` is `word`, whatever the case of its ASCII letters.
pub open spec fn same_word(s: Seq<char>, word: Seq<char>) -> bool {
    s.len() == word.len() && forall|i: int| 0 <= i < s.len() ==> #[trigger] folded(s[i]) == folded(word[i])
}

/// The number written by `s`: a decimal number, or a word for infinity or for no number, with a
/// sign before it or not.
pub open spec fn float_of(s: Seq<char>) -> Option<Float> {
    let body = unsigned(s);
    match decimal_of(body) {
        Some((digits, exponent)) => Some(
            float::signed(is_minus(s), nearest_decimal(digits, exponent)),
        ),
        None => if same_word(body, "inf"@) || same_word(body, "infinity"@) {
            Some(float::signed(is_minus(s), INFINITE as nat))
        } else if same_word(body, "nan"@) {
            Some(Float { bits: QUIET })
        } else {
            None
        },
    }
}

proof fn lemma_ten_adds(a: nat, b: nat)
    ensures
        ten(a) * ten(b) == ten(a + b),
        ten(a) > 0,
    decreases a,
{
    if a > 0 {
        lemma_ten_adds((a - 1) as nat, b);
        let t = ten((a - 1) as nat);
        assert((10 * t) * ten(b) == 10 * (t * ten(b))) by (nonlinear_arith);
    } else {
        assert(1 * ten(b) == ten(b));
    }
}

/// Ten is more than three doublings.
proof fn lemma_ten_is_large(k: nat)
    ensures
        ten(k) >= pow2(3 * k),
    decreases k,
{
    lemma2_to64();
    if k > 0 {
        lemma_ten_is_large((k - 1) as nat);
        lemma_pow2_adds(3, (3 * (k - 1)) as nat);
    }
}

proof fn lemma_ten_ordered(a: nat, b: nat)
    requires
        a <= b,
    ensures
        ten(a) <= ten(b),
    decreases b,
{
    if a < b {
        lemma_ten_ordered(a, (b - 1) as nat);
    }
}

pub(crate) proof fn lemma_run(s: Seq<char>, from: int, n: nat)
    requires
        0 <= from,
        from + n <= s.len(),
        forall|i: int| from <= i < from + n ==> is_digit(#[trigger] s[i]),
        from + n == s.len() || !is_digit(s[from + n]),
    ensures
        digit_run(s, from) == n,
    decreases n,
{
    if n > 0 {
        lemma_run(s, from + 1, (n - 1) as nat);
    }
}

/// Whether `c` is a digit.
pub fn digit(c: char) -> (r: bool)
    ensures
        r == is_digit(c),
{
    let code: u32 = c as u32;
    48 <= code && code <= 57
}

/// The value of a digit.
pub fn digit_of(c: char) -> (r: u32)
    requires
        is_digit(c),
    ensures
        r == digit_value(c),
        r <= 9,
{
    c as u32 - 48
}

/// How many digits in a row stand at `from`.
fn count_run(s: &[char], from: usize) -> (n: usize)
    requires
        from <= s@.len(),
    ensures
        n == digit_run(s@, from as int),
        from + n <= s@.len(),
        forall|i: int| from <= i < from + n ==> is_digit(#[trigger] s@[i]),
{
    let mut i: usize = from;
    while i < s.len() && digit(s[i])
        invariant
            from <= i <= s@.len(),
            forall|j: int| from <= j < i ==> is_digit(#[trigger] s@[j]),
        decreases s@.len() - i,
    {
        i = i + 1;
    }
    proof {
        lemma_run(s@, from as int, (i - from) as nat);
    }
    i - from
}

/// Where the digits begin, and whether a minus stands before them.
fn read_sign(s: &[char]) -> (r: (bool, usize))
    ensures
        r.0 == is_minus(s@),
        r.1 <= s@.len(),
        s@.skip(r.1 as int) == unsigned(s@),
{
    if s.len() > 0 && (s[0] == '+' || s[0] == '-') {
        (s[0] == '-', 1)
    } else {
        proof {
            assert(s@.skip(0) =~= s@);
        }
        (false, 0)
    }
}

proof fn lemma_run_of_skip(s: Seq<char>, k: int, from: int)
    requires
        0 <= k <= from <= s.len(),
    ensures
        digit_run(s.skip(k), from - k) == digit_run(s, from),
    decreases s.len() - from,
{
    if from < s.len() && is_digit(s[from]) {
        lemma_run_of_skip(s, k, from + 1);
    }
}

/// The greatest magnitude of an `i128`.
const GREATEST: u128 = 0x8000_0000_0000_0000_0000_0000_0000_0000;

/// The value of the digits from `from` to the end, or `None` above `most`.
fn read_digits(s: &[char], from: usize, most: u128) -> (r: Option<u128>)
    requires
        from <= s@.len(),
        forall|i: int| from <= i < s@.len() ==> is_digit(#[trigger] s@[i]),
        most <= GREATEST,
    ensures
        r == (if digits_value(s@.skip(from as int)) <= most {
            Some(digits_value(s@.skip(from as int)) as u128)
        } else {
            None
        }),
{
    let ghost body = s@.skip(from as int);
    let mut total: u128 = 0;
    let mut over: bool = false;
    let mut i: usize = from;
    while i < s.len()
        invariant
            from <= i <= s@.len(),
            body == s@.skip(from as int),
            forall|j: int| from <= j < s@.len() ==> is_digit(#[trigger] s@[j]),
            most <= GREATEST,
            over ==> digits_value(body.take(i - from)) > most,
            !over ==> total == digits_value(body.take(i - from)) && total <= most,
        decreases s@.len() - i,
    {
        proof {
            let next = body.take(i - from + 1);
            assert(next.drop_last() =~= body.take(i - from));
            assert(next.last() == s@[i as int]);
        }
        if !over {
            let d: u128 = digit_of(s[i]) as u128;
            if total > GREATEST / 10 {
                over = true;
            } else if total * 10 + d > most {
                over = true;
            } else {
                total = total * 10 + d;
            }
        }
        i = i + 1;
    }
    proof {
        assert(body.take(s@.len() - from) =~= body);
    }
    if over {
        None
    } else {
        Some(total)
    }
}

/// The integer written by `s`, where it is one and an `i128` can hold it.
pub fn read_integer(s: &[char]) -> (r: Option<i128>)
    ensures
        r == (match integer_of(s@) {
            Some(v) => if i128::MIN <= v <= i128::MAX {
                Some(v as i128)
            } else {
                None
            },
            None => None,
        }),
{
    let (minus, start) = read_sign(s);
    let n: usize = count_run(s, start);
    proof {
        lemma_run_of_skip(s@, start as int, start as int);
    }
    if n == 0 || s.len() - start != n {
        return None;
    }
    if minus {
        match read_digits(s, start, GREATEST) {
            Some(m) => {
                if m == GREATEST {
                    Some(i128::MIN)
                } else {
                    Some(-(m as i128))
                }
            },
            None => None,
        }
    } else {
        match read_digits(s, start, GREATEST - 1) {
            Some(m) => Some(m as i128),
            None => None,
        }
    }
}

/// Whether `s` from `from` on is `word`, whatever the case of its ASCII letters.
pub fn is_word(s: &[char], from: usize, word: &str) -> (r: bool)
    requires
        from <= s@.len(),
    ensures
        r == same_word(s@.skip(from as int), word@),
{
    let w: Vec<char> = chars_of(word);
    let n: usize = s.len();
    if n - from != w.len() {
        return false;
    }
    let mut i: usize = 0;
    while i < w.len()
        invariant
            n == s@.len(),
            i <= w@.len(),
            w@ == word@,
            from + w@.len() == s@.len(),
            forall|j: int| 0 <= j < i ==> #[trigger] folded(s@.skip(from as int)[j]) == folded(w@[j]),
        decreases w@.len() - i,
    {
        if fold_case(s[from + i]) != fold_case(w[i]) {
            assert(folded(s@.skip(from as int)[i as int]) != folded(w@[i as int]));
            return false;
        }
        i = i + 1;
    }
    true
}

/// The code of a character, an upper-case ASCII letter taken as its lower-case one.
pub fn fold_case(c: char) -> (r: u32)
    ensures
        r == folded(c),
{
    let code: u32 = c as u32;
    if 65 <= code && code <= 90 {
        code + 32
    } else {
        code
    }
}

/// An exponent beyond any that can matter to a text that fits in memory.
const FAR: u128 = 1_000_000_000_000_000_000_000_000_000_000;

/// A value of at least ten to the power 342 rounds to infinity, one below ten to the power -360 to
/// zero.
proof fn lemma_far(digits: nat, n: nat, exponent: int)
    requires
        n > 0,
        ten((n - 1) as nat) <= digits < ten(n),
    ensures
        denominator(exponent) > 0,
        n - 1 + exponent >= 342 ==> float::rounds_to(
            INFINITE as nat,
            numerator(digits, exponent),
            denominator(exponent),
        ),
        n + exponent <= -360 ==> float::rounds_to(
            0,
            numerator(digits, exponent),
            denominator(exponent),
        ),
{
    let up = ten(
        if exponent > 0 {
            exponent as nat
        } else {
            0
        },
    );
    let down = denominator(exponent);
    let one = pow2(1074);
    lemma_ten_adds(
        if exponent < 0 {
            (-exponent) as nat
        } else {
            0
        },
        0,
    );
    lemma_pow2_pos(1074);
    assert(ten(0) == 1);
    if n - 1 + exponent >= 342 {
        let k = (n - 1 + exponent) as nat;
        lemma_ten_is_large(342);
        lemma_ten_ordered(342, k);
        lemma_pow2_adds(1024, 1074);
        lemma_pow2_strictly_increases(1024, 1026);
        assert(ten((n - 1) as nat) * up == ten(k) * down) by {
            if exponent >= 0 {
                lemma_ten_adds((n - 1) as nat, exponent as nat);
            } else {
                lemma_ten_adds(k, (-exponent) as nat);
            }
        }
        assert(digits * up >= ten((n - 1) as nat) * up) by (nonlinear_arith)
            requires
                digits >= ten((n - 1) as nat),
        ;
        assert(ten(k) * down >= pow2(1024) * down) by (nonlinear_arith)
            requires
                ten(k) >= pow2(1024),
        ;
        assert((digits * up) * one >= (pow2(1024) * down) * one) by (nonlinear_arith)
            requires
                digits * up >= pow2(1024) * down,
        ;
        assert((pow2(1024) * down) * one == (pow2(1024) * one) * down) by (nonlinear_arith);
        float::lemma_overflow(numerator(digits, exponent), down);
    }
    if n + exponent <= -360 {
        let j = (-exponent - n) as nat;
        lemma_ten_adds(n, j);
        lemma_ten_is_large(360);
        lemma_ten_ordered(360, j);
        lemma_pow2_unfold(1075);
        lemma_pow2_strictly_increases(1075, 1080);
        float::lemma_zero_units();
        float::lemma_step(0);
        assert(float::mag_units(1) == 1) by {
            lemma2_to64();
        }
        assert(up == 1);
        assert(digits * 1 * one == digits * one) by (nonlinear_arith);
        assert(2 * (digits * one) < ten(n) * ten(j)) by (nonlinear_arith)
            requires
                digits < ten(n),
                2 * one < ten(j),
                one > 0,
        ;
        assert(1 * down == down);
    }
}

/// Whether the magnitude nearest to `twice / (2 * den)` is at least `m`.
fn reaches(m: u64, twice: &Vec<u32>, den: &Vec<u32>, Ghost(num): Ghost<nat>) -> (r: bool)
    requires
        0 < m <= INFINITE,
        natural::value(twice@) == 2 * num,
    ensures
        r == ({
            let low = float::mag_units((m - 1) as nat) + float::mag_units(m as nat);
            low * natural::value(den@) < 2 * num || (low * natural::value(den@) == 2 * num && m % 2
                == 0)
        }),
{
    let (x, q) = split(m - 1);
    let mut low: Vec<u32> = den.clone();
    let ghost d = natural::value(den@);
    assert(low@ =~= den@);
    multiply_and_raise(&mut low, 2 * q + 1, 0);
    double_times(&mut low, x as u32);
    proof {
        float::lemma_step((m - 1) as nat);
        let p = pow2(x as nat);
        assert((d * (2 * q + 1)) * p == (q * p + (q * p + p)) * d) by (nonlinear_arith);
    }
    let c: i32 = compare(&low, twice);
    c < 0 || (c == 0 && m % 2 == 0)
}

/// The magnitude nearest to a quotient of two natural numbers.
fn round_quotient(twice: &Vec<u32>, den: &Vec<u32>, Ghost(num): Ghost<nat>) -> (r: u64)
    requires
        natural::value(twice@) == 2 * num,
    ensures
        float::rounds_to(r as nat, num, natural::value(den@)),
{
    let mut low: u64 = 0;
    let mut high: u64 = INFINITE + 1;
    let ghost d = natural::value(den@);
    while high - low > 1
        invariant
            low < high <= INFINITE + 1,
            natural::value(twice@) == 2 * num,
            d == natural::value(den@),
            low > 0 ==> {
                let b = float::mag_units((low - 1) as nat) + float::mag_units(low as nat);
                b * d < 2 * num || (b * d == 2 * num && low % 2 == 0)
            },
            high <= INFINITE ==> {
                let b = float::mag_units((high - 1) as nat) + float::mag_units(high as nat);
                !(b * d < 2 * num || (b * d == 2 * num && high % 2 == 0))
            },
        decreases high - low,
    {
        let m: u64 = low + (high - low) / 2;
        if reaches(m, twice, den, Ghost(num)) {
            low = m;
        } else {
            high = m;
        }
    }
    low
}

fn times_ten(v: &mut Vec<u32>, k: u128)
    ensures
        natural::value(final(v)@) == natural::value(old(v)@) * ten(k as nat),
{
    let ghost was = natural::value(v@);
    let mut left: u128 = k;
    while left > 0
        invariant
            left <= k,
            natural::value(v@) * ten(left as nat) == was * ten(k as nat),
        decreases left,
    {
        let ghost before = natural::value(v@);
        multiply_and_raise(v, 10, 0);
        proof {
            let rest = ten((left - 1) as nat);
            assert((before * 10) * rest == before * (10 * rest)) by (nonlinear_arith);
        }
        left = left - 1;
    }
    proof {
        assert(natural::value(v@) * 1 == natural::value(v@));
    }
}

/// The magnitude nearest to digits that fit a word, times a small power of ten.
fn round_short(digits: u64, exponent: i32) -> (r: u64)
    requires
        digits > 0,
        -19 <= exponent <= 19,
    ensures
        float::rounds_to(
            r as nat,
            numerator(digits as nat, exponent as int),
            denominator(exponent as int),
        ),
{
    let k: u32 = if exponent < 0 {
        (-exponent) as u32
    } else {
        exponent as u32
    };
    let mut p: u128 = 1;
    let mut i: u32 = 0;
    proof {
        lemma_ten_ordered(k as nat, 19);
        assert(ten(19) == 10_000_000_000_000_000_000) by {
            reveal_with_fuel(ten, 21);
        }
    }
    while i < k
        invariant
            i <= k <= 19,
            p == ten(i as nat),
            ten(19) == 10_000_000_000_000_000_000,
        decreases k - i,
    {
        proof {
            lemma_ten_ordered(i as nat, 19);
        }
        p = p * 10;
        i = i + 1;
    }
    let ghost one = pow2(1074);
    if exponent >= 0 {
        proof {
            assert(digits * p <= 0xffff_ffff_ffff_ffff * 10_000_000_000_000_000_000)
                by (nonlinear_arith)
                requires
                    digits <= 0xffff_ffff_ffff_ffff,
                    0 <= p <= 10_000_000_000_000_000_000,
            ;
            lemma_ten_adds(k as nat, 0);
            assert(digits * p > 0) by (nonlinear_arith)
                requires
                    digits > 0,
                    p > 0,
            ;
        }
        let m: u128 = digits as u128 * p;
        let ghost num = numerator(digits as nat, exponent as int);
        proof {
            assert(num * 1 == m * (one * 1)) by (nonlinear_arith)
                requires
                    num == m * one,
            ;
        }
        round_scaled(m, 1074, false, Ghost(num), Ghost(1))
    } else {
        let l: u32 = bit_length(digits as u128);
        proof {
            lemma2_to64();
            lemma2_to64_rest();
            if l > 65 {
                lemma_pow2_strictly_increases(64, (l - 1) as nat);
            }
        }
        let s: u32 = 127 - l;
        let f: u128 = power(s);
        proof {
            lemma_pow2_pos(s as nat);
            lemma_pow2_adds(l as nat, s as nat);
            lemma_pow2_adds((l - 1) as nat, s as nat);
            lemma_pow2_adds(64, 63);
            lemma_pow2_adds(64, 62);
            assert(digits * f < pow2(l as nat) * f) by (nonlinear_arith)
                requires
                    digits < pow2(l as nat),
                    f > 0,
            ;
            assert(digits * f >= pow2((l - 1) as nat) * f) by (nonlinear_arith)
                requires
                    digits >= pow2((l - 1) as nat),
            ;
            lemma_ten_adds(k as nat, 0);
        }
        let n: u128 = digits as u128 * f;
        let q: u128 = n / p;
        let rem: u128 = n % p;
        let ghost num = numerator(digits as nat, exponent as int);
        proof {
            vstd::arithmetic::div_mod::lemma_fundamental_div_mod(n as int, p as int);
            vstd::arithmetic::mul::lemma_mul_is_commutative(p as int, q as int);
            assert(q >= 2 * STEP) by (nonlinear_arith)
                requires
                    q * p + rem >= 0x4000_0000_0000_0000 * 0x1_0000_0000_0000_0000,
                    0 <= rem < p,
                    p <= 10_000_000_000_000_000_000,
                    STEP == 0x10_0000_0000_0000,
            ;
            let up = pow2((1074 - s) as nat);
            lemma_pow2_pos((1074 - s) as nat);
            lemma_pow2_adds(s as nat, (1074 - s) as nat);
            assert(num == digits * 1 * one);
            assert(num * 1 == n * up) by (nonlinear_arith)
                requires
                    num == digits * 1 * one,
                    one == f * up,
                    n == digits * f,
            ;
            assert(n * up == q * (up * p) + rem * up) by (nonlinear_arith)
                requires
                    n == q * p + rem,
            ;
            assert((q + 1) * (up * p) == q * (up * p) + p * up) by (nonlinear_arith);
            assert(rem * up < p * up) by (nonlinear_arith)
                requires
                    rem < p,
                    up > 0,
            ;
            assert(rem > 0 ==> rem * up > 0) by (nonlinear_arith)
                requires
                    up > 0,
            ;
            assert(rem == 0 ==> rem * up == 0) by (nonlinear_arith);
        }
        round_scaled(q, 1074 - s as i32, rem > 0, Ghost(num), Ghost(p as nat))
    }
}


/// `v` held between the two far exponents.
spec fn held(v: int) -> int {
    if v > FAR {
        FAR as int
    } else if v < -FAR {
        -FAR
    } else {
        v
    }
}

/// The exponent written by `s`.
fn read_exponent(s: &[char]) -> (r: Option<i128>)
    ensures
        r == (match integer_of(s@) {
            Some(v) => Some(held(v) as i128),
            None => None,
        }),
        r matches Some(v) ==> -FAR <= v <= FAR,
{
    let (minus, start) = read_sign(s);
    let n: usize = count_run(s, start);
    proof {
        lemma_run_of_skip(s@, start as int, start as int);
    }
    if n == 0 || s.len() - start != n {
        return None;
    }
    let m: i128 = match read_digits(s, start, FAR) {
        Some(m) => m as i128,
        None => FAR as i128,
    };
    if minus {
        Some(-m)
    } else {
        Some(m)
    }
}

/// The magnitude nearest to digits times a power of ten. Of an exponent that is far, only that it
/// is far matters.
#[verifier::rlimit(40)]
#[verifier::spinoff_prover]
fn round_decimal(digits: &Vec<char>, e: i128, Ghost(exponent): Ghost<int>) -> (r: u64)
    requires
        forall|i: int| 0 <= i < digits@.len() ==> is_digit(#[trigger] digits@[i]),
        -FAR - u64::MAX <= e <= FAR,
        e == exponent || (e >= FAR - u64::MAX && exponent >= FAR - u64::MAX) || (e <= -FAR
            && exponent <= -FAR),
    ensures
        float::rounds_to(
            r as nat,
            numerator(digits_value(digits@), exponent),
            denominator(exponent),
        ),
{
    let ghost whole = digits_value(digits@);
    let mut count: u64 = 0;
    let mut short: u64 = 0;
    let mut fits: bool = true;
    let len: usize = digits.len();
    let mut i: usize = 0;
    while i < len
        invariant
            i <= len == digits@.len(),
            count <= i,
            forall|j: int| 0 <= j < digits@.len() ==> is_digit(#[trigger] digits@[j]),
            count == 0 ==> digits_value(digits@.take(i as int)) == 0,
            count > 0 ==> ten((count - 1) as nat) <= digits_value(digits@.take(i as int)) < ten(
                count as nat,
            ),
            fits ==> short == digits_value(digits@.take(i as int)),
        decreases len - i,
    {
        let d: u32 = digit_of(digits[i]);
        proof {
            let next = digits@.take(i + 1);
            assert(next.drop_last() =~= digits@.take(i as int));
            assert(ten(0) == 1);
        }
        if count > 0 || d > 0 {
            count = count + 1;
        }
        if fits && short < 1_000_000_000_000_000_000 {
            short = short * 10 + d as u64;
        } else {
            fits = false;
        }
        i = i + 1;
    }
    proof {
        assert(digits@.take(len as int) =~= digits@);
        lemma_ten_adds(
            if exponent < 0 {
                (-exponent) as nat
            } else {
                0
            },
            0,
        );
    }
    if count == 0 {
        proof {
            let p = ten(
                if exponent > 0 {
                    exponent as nat
                } else {
                    0
                },
            );
            assert(0 * p * pow2(1074) == 0) by (nonlinear_arith);
            float::lemma_zero_rounds(denominator(exponent));
        }
        return 0;
    }
    proof {
        lemma_far(whole, count as nat, exponent);
    }
    if count as i128 - 1 + e >= 342 {
        return INFINITE;
    }
    if count as i128 + e <= -360 {
        return 0;
    }
    assert(e == exponent);
    if fits && e >= -19 && e <= 19 {
        return round_short(short, e as i32);
    }
    let mut num: Vec<u32> = Vec::new();
    let mut k: usize = 0;
    proof {
        assert(digits@.take(0) =~= Seq::<char>::empty());
        assert(natural::value(num@) == 0);
    }
    while k < len
        invariant
            k <= len == digits@.len(),
            forall|j: int| 0 <= j < digits@.len() ==> is_digit(#[trigger] digits@[j]),
            natural::value(num@) == digits_value(digits@.take(k as int)),
        decreases len - k,
    {
        let d: u32 = digit_of(digits[k]);
        proof {
            let next = digits@.take(k + 1);
            assert(next.drop_last() =~= digits@.take(k as int));
        }
        multiply_and_raise(&mut num, 10, d);
        k = k + 1;
    }
    let mut den: Vec<u32> = Vec::new();
    den.push(1);
    proof {
        reveal_with_fuel(natural::low_part, 2);
        assert(natural::weight(0) == 1);
        assert(natural::value(den@) == 1);
    }
    if e >= 0 {
        times_ten(&mut num, e as u128);
        proof {
            assert(ten(0) == 1);
        }
    } else {
        times_ten(&mut den, (-e) as u128);
        proof {
            assert(1 * ten((-e) as nat) == ten((-e) as nat));
        }
    }
    let ghost scaled_digits = natural::value(num@);
    double_times(&mut num, 1075);
    proof {
        assert(ten(0) == 1);
        lemma_pow2_unfold(1075);
        let one = pow2(1074);
        assert(scaled_digits * (2 * one) == 2 * (scaled_digits * one)) by (nonlinear_arith);
        assert(whole * 1 == whole);
        assert(1 * denominator(exponent) == denominator(exponent));
        assert(natural::value(den@) == denominator(exponent));
    }
    round_quotient(&num, &den, Ghost(numerator(whole, exponent)))
}

/// The floating-point number written by `s`, where it writes one.
pub fn read_float(s: &[char]) -> (r: Option<Float>)
    ensures
        r == float_of(s@),
{
    let (minus, start) = read_sign(s);
    match read_decimal(s, start) {
        Some(m) => Some(with_sign(minus, m)),
        None => {
            if is_word(s, start, "inf") || is_word(s, start, "infinity") {
                Some(with_sign(minus, INFINITE))
            } else if is_word(s, start, "nan") {
                Some(Float { bits: QUIET })
            } else {
                None
            }
        },
    }
}

/// The magnitude of the decimal number written by `s` from `start` on.
#[verifier::rlimit(60)]
#[verifier::spinoff_prover]
fn read_decimal(s: &[char], start: usize) -> (r: Option<u64>)
    requires
        start <= s@.len(),
    ensures
        r == (match decimal_of(s@.skip(start as int)) {
            Some((digits, exponent)) => Some(nearest_decimal(digits, exponent) as u64),
            None => None,
        }),
        r matches Some(m) ==> m <= INFINITE,
        decimal_of(s@.skip(start as int)) matches Some((digits, exponent)) ==> nearest_decimal(
            digits,
            exponent,
        ) <= INFINITE,
{
    let ghost body = s@.skip(start as int);
    let len: usize = s.len();
    let whole: usize = count_run(s, start);
    let dot: usize = start + whole;
    let point: bool = dot < len && s[dot] == '.';
    let part: usize = if point {
        count_run(s, dot + 1)
    } else {
        0
    };
    let end: usize = if point {
        dot + 1 + part
    } else {
        dot
    };
    proof {
        lemma_run_of_skip(s@, start as int, start as int);
        if point {
            lemma_run_of_skip(s@, start as int, dot + 1);
        }
    }
    if whole == 0 && part == 0 {
        return None;
    }
    let ghost written = if point {
        body.take(whole as int) + body.subrange(whole + 1, end - start)
    } else {
        body.take(whole as int)
    };
    let mut digits: Vec<char> = Vec::new();
    let mut i: usize = start;
    while i < end
        invariant
            start <= i <= end <= len == s@.len(),
            dot == start + whole,
            point ==> dot < end,
            !point ==> dot == end,
            body == s@.skip(start as int),
            forall|j: int| start <= j < dot ==> is_digit(#[trigger] s@[j]),
            forall|j: int| dot < j < end ==> is_digit(#[trigger] s@[j]),
            digits@ == (if i <= dot {
                body.take(i - start)
            } else {
                body.take(whole as int) + body.subrange(whole + 1, i - start)
            }),
            forall|j: int| 0 <= j < digits@.len() ==> is_digit(#[trigger] digits@[j]),
        decreases end - i,
    {
        let ghost before = digits@;
        if i != dot {
            digits.push(s[i]);
            proof {
                if i < dot {
                    assert(body.take(i - start + 1) =~= before.push(s@[i as int]));
                } else {
                    assert(body.subrange(whole + 1, i - start + 1) =~= body.subrange(
                        whole + 1,
                        i - start,
                    ).push(s@[i as int]));
                    assert(digits@ =~= body.take(whole as int) + body.subrange(
                        whole + 1,
                        i - start + 1,
                    ));
                }
            }
        } else {
            proof {
                assert(digits@ =~= body.take(whole as int) + body.subrange(whole + 1, whole + 1));
            }
        }
        i = i + 1;
    }
    assert(digits@ =~= written);
    let mut e: i128 = 0;
    let ghost mut given: int = 0;
    if end < len {
        if s[end] != 'e' && s[end] != 'E' {
            return None;
        }
        proof {
            assert(body.skip(end - start + 1) =~= s@.subrange(end + 1, len as int));
        }
        match read_exponent(vstd::slice::slice_subrange(s, end + 1, len)) {
            Some(x) => {
                e = x;
                proof {
                    given = integer_of(body.skip(end - start + 1))->0;
                }
            },
            None => {
                return None;
            },
        }
    }
    let ghost exponent = given - part;
    let m: u64 = round_decimal(&digits, e - part as i128, Ghost(exponent));
    proof {
        lemma_ten_adds(
            if exponent < 0 {
                (-exponent) as nat
            } else {
                0
            },
            0,
        );
        float::lemma_round_is(
            m as nat,
            numerator(digits_value(digits@), exponent),
            denominator(exponent),
        );
    }
    Some(m)
}
} // verus!
