//! Which number a value stands for, and which value a text stands for.

use crate::combine;
use crate::decimal;
use crate::float;
use crate::float::Float;
use crate::json;
use crate::json::{JsonView, Num};
use crate::query::{float_value, number_value};
use crate::text;
use crate::writing;
use crate::writing::{integer_word, lemma_white, white};
use vstd::arithmetic::power2::pow2;
use vstd::prelude::*;
use vstd::string::*;

verus! {

/// All characters are white space.
pub open spec fn blank(s: Seq<char>) -> bool {
    forall|i: int| 0 <= i < s.len() ==> white(#[trigger] s[i])
}

/// Trimming a text takes the white space off its two ends, and nothing else.
pub proof fn lemma_trimmed(a: Seq<char>, w: Seq<char>, b: Seq<char>)
    requires
        blank(a),
        blank(b),
        w.len() > 0 ==> !white(w[0]) && !white(w.last()),
    ensures
        text::trimmed(a + w + b) == w,
    decreases a.len() + b.len(),
{
    let s = a + w + b;
    if a.len() > 0 {
        assert(white(a[0]));
        lemma_white(a[0]);
        let rest = a.skip(1);
        assert forall|i: int| 0 <= i < rest.len() implies white(#[trigger] rest[i]) by {
            assert(rest[i] == a[i + 1]);
        }
        assert(s.skip(1) =~= rest + w + b);
        lemma_trimmed(rest, w, b);
    } else if b.len() > 0 {
        let rest = b.drop_last();
        assert(white(b[b.len() - 1]));
        lemma_white(b.last());
        assert forall|i: int| 0 <= i < rest.len() implies white(#[trigger] rest[i]) by {
            assert(rest[i] == b[i]);
        }
        if w.len() > 0 {
            lemma_white(w[0]);
            assert(s[0] == w[0]);
            assert(s.drop_last() =~= a + w + rest);
            lemma_trimmed(a, w, rest);
        } else {
            assert(s =~= b);
            assert(white(b[0]));
            lemma_white(b[0]);
            let tail = b.skip(1);
            assert forall|i: int| 0 <= i < tail.len() implies white(#[trigger] tail[i]) by {
                assert(tail[i] == b[i + 1]);
            }
            assert(a + w + tail =~= tail);
            lemma_trimmed(a, w, tail);
        }
    } else {
        assert(s =~= w);
        if w.len() > 0 {
            lemma_white(w[0]);
            lemma_white(w.last());
        }
    }
}

/// Only numbers and strings stand for numbers, a number for itself, and as a floating-point number an
/// integer for the nearest one.
pub proof fn lemma_numbers_of_values(v: JsonView)
    ensures
        v is Null || v is Bool || v is Array || v is Object ==> number_value(v) is None && float_value(v) is None,
        v matches JsonView::Number(n) ==> number_value(v) == Some(n) && (match n {
            Num::Int(i) => float_value(v) == Some(float::nearest_int(i as int)),
            Num::Float(f) => float_value(v) == Some(f),
        }),
{
}

/// A string that is an integer in decimal stands for that integer, for a sum also with white space around
/// it.
pub proof fn lemma_integer_strings(a: Seq<char>, i: int, b: Seq<char>)
    requires
        blank(a),
        blank(b),
        i128::MIN <= i <= i128::MAX,
    ensures
        number_value(JsonView::String(a + integer_word(i) + b)) == Some(Num::Int(i as i128)),
        float_value(JsonView::String(integer_word(i))) == Some(float::nearest_int(i)),
{
    let w = integer_word(i);
    writing::lemma_integers(i);
    assert(writing::ordinary(w[0]));
    assert(writing::ordinary(w.last()));
    lemma_trimmed(a, w, b);
    let n = float::magnitude_of(i);
    let digits = text::decimal_text(n);
    writing::lemma_decimal_text(n);
    assert(decimal::is_digit(digits[0]));
    assert(decimal::unsigned(w) =~= digits);
    decimal::lemma_run(digits, 0, digits.len());
    assert(digits.take(digits.len() as int) =~= digits);
    assert(decimal::decimal_of(digits) == Some((n, 0int)));
    assert(decimal::ten(0) == 1);
    assert(decimal::numerator(n, 0) == n * 1 * pow2(1074));
}

/// A text of digits alone.
pub open spec fn digits(s: Seq<char>) -> bool {
    forall|i: int| 0 <= i < s.len() ==> '0' <= #[trigger] s[i] <= '9'
}

pub open spec fn tens(k: nat) -> nat
    decreases k,
{
    if k == 0 {
        1
    } else {
        10 * tens((k - 1) as nat)
    }
}

/// What digits are worth, by their places.
pub open spec fn worth(s: Seq<char>) -> nat
    decreases s.len(),
{
    if s.len() == 0 {
        0
    } else {
        (s[0] as u32 - 48) as nat * tens((s.len() - 1) as nat) + worth(s.skip(1))
    }
}

proof fn lemma_worth_push(s: Seq<char>, c: char)
    requires
        digits(s),
        '0' <= c <= '9',
    ensures
        worth(s.push(c)) == worth(s) * 10 + (c as u32 - 48) as nat,
    decreases s.len(),
{
    let t = s.push(c);
    if s.len() == 0 {
        assert(t.skip(1) =~= Seq::<char>::empty());
        assert(worth(t.skip(1)) == 0);
        assert(tens(0) == 1);
        let d = (c as u32 - 48) as nat;
        assert(d * 1 == d);
        assert(worth(t) == d * tens(0) + worth(t.skip(1)));
    } else {
        let rest = s.skip(1);
        assert('0' <= s[0] <= '9');
        assert forall|i: int| 0 <= i < rest.len() implies '0' <= #[trigger] rest[i] <= '9' by {
            assert(rest[i] == s[i + 1]);
        }
        lemma_worth_push(rest, c);
        assert(t.skip(1) =~= rest.push(c));
        let d = (s[0] as u32 - 48) as nat;
        let k = tens((s.len() - 1) as nat);
        assert(tens(s.len()) == 10 * k);
        assert(d * (10 * k) == (d * k) * 10) by (nonlinear_arith);
        assert(t[0] == s[0]);
        assert(worth(t) == d * tens(s.len()) + worth(t.skip(1)));
        assert(worth(s) == d * k + worth(rest));
    }
}

proof fn lemma_worth(s: Seq<char>)
    requires
        digits(s),
    ensures
        decimal::digits_value(s) == worth(s),
    decreases s.len(),
{
    if s.len() > 0 {
        let rest = s.drop_last();
        assert('0' <= s[s.len() - 1] <= '9');
        assert forall|i: int| 0 <= i < rest.len() implies '0' <= #[trigger] rest[i] <= '9' by {
            assert(rest[i] == s[i]);
        }
        lemma_worth(rest);
        lemma_worth_push(rest, s.last());
        assert(rest.push(s.last()) =~= s);
    }
}

proof fn lemma_tens(k: nat)
    ensures
        decimal::ten(k) == tens(k),
    decreases k,
{
    if k > 0 {
        lemma_tens((k - 1) as nat);
    }
}

pub open spec fn sign_text(minus: bool) -> Seq<char> {
    if minus {
        seq!['-']
    } else {
        Seq::empty()
    }
}

proof fn lemma_unsigned(minus: bool, body: Seq<char>)
    requires
        body.len() > 0,
        body[0] != '-',
        body[0] != '+',
    ensures
        decimal::unsigned(sign_text(minus) + body) == body,
        decimal::is_minus(sign_text(minus) + body) == minus,
{
    let s = sign_text(minus) + body;
    if minus {
        assert(s[0] == '-');
        assert(s.skip(1) =~= body);
    } else {
        assert(s =~= body);
    }
}

/// A string that is a decimal number with a point stands for the floating-point number nearest to it.
pub proof fn lemma_fractions(minus: bool, a: Seq<char>, b: Seq<char>)
    requires
        digits(a),
        digits(b),
        a.len() + b.len() > 0,
    ensures
        float_value(JsonView::String(sign_text(minus) + (a + seq!['.'] + b))) == Some(
            float::signed(minus, float::round(worth(a + b) * pow2(1074), tens(b.len()))),
        ),
{
    let s = a + seq!['.'] + b;
    lemma_parts(a, b, Seq::empty());
    assert(s + Seq::<char>::empty() =~= s);
    if a.len() > 0 {
        assert(s[0] == a[0]);
    } else {
        assert(s[0] == '.');
    }
    lemma_unsigned(minus, s);
    lemma_join_digits(a, b);
    lemma_worth(a + b);
    lemma_tens(b.len());
    assert(decimal::decimal_of(s) == Some((worth(a + b), -(b.len() as int))));
    assert(decimal::ten(0) == 1);
    assert(decimal::numerator(worth(a + b), -(b.len() as int)) == worth(a + b) * 1 * pow2(1074));
}

proof fn lemma_join_digits(a: Seq<char>, b: Seq<char>)
    requires
        digits(a),
        digits(b),
    ensures
        digits(a + b),
{
    assert forall|i: int| 0 <= i < (a + b).len() implies '0' <= #[trigger] (a + b)[i] <= '9' by {
        if i < a.len() {
            assert((a + b)[i] == a[i]);
        } else {
            assert((a + b)[i] == b[i - a.len()]);
        }
    }
}

proof fn lemma_digit(c: char)
    ensures
        decimal::is_digit(c) <==> '0' <= c <= '9',
{
}

proof fn lemma_parts(a: Seq<char>, b: Seq<char>, more: Seq<char>)
    requires
        digits(a),
        digits(b),
        more.len() > 0 ==> (more[0] < '0' || '9' < more[0]),
    ensures
        ({
            let s = a + seq!['.'] + b + more;
            &&& decimal::digit_run(s, 0) == a.len()
            &&& s[a.len() as int] == '.'
            &&& decimal::digit_run(s, a.len() as int + 1) == b.len()
            &&& s.take(a.len() as int) == a
            &&& s.subrange(a.len() as int + 1, a.len() as int + 1 + b.len()) == b
        }),
{
    let s = a + seq!['.'] + b + more;
    assert forall|i: int| 0 <= i < 0 + a.len() implies decimal::is_digit(#[trigger] s[i]) by {
        assert(s[i] == a[i]);
    }
    decimal::lemma_run(s, 0, a.len());
    let from = a.len() as int + 1;
    assert forall|i: int| from <= i < from + b.len() implies decimal::is_digit(#[trigger] s[i]) by {
        assert(s[i] == b[i - from]);
    }
    if more.len() > 0 {
        assert(s[from + b.len()] == more[0]);
        lemma_digit(more[0]);
    } else {
        assert(from + b.len() == s.len());
    }
    decimal::lemma_run(s, from, b.len());
    assert(s.take(a.len() as int) =~= a);
    assert(s.subrange(from, from + b.len()) =~= b);
}

/// The exponent of a decimal number moves its point.
pub proof fn lemma_exponents(minus: bool, a: Seq<char>, b: Seq<char>, x: int)
    requires
        digits(a),
        digits(b),
        a.len() + b.len() > 0,
    ensures
        ({
            let s = sign_text(minus) + (a + seq!['.'] + b + seq!['e'] + integer_word(x));
            let e = x - b.len();
            float_value(JsonView::String(s)) == Some(
                float::signed(
                    minus,
                    if e >= 0 {
                        float::round(worth(a + b) * tens(e as nat) * pow2(1074), 1)
                    } else {
                        float::round(worth(a + b) * pow2(1074), tens((-e) as nat))
                    },
                ),
            )
        }),
{
    let more = seq!['e'] + integer_word(x);
    let s = a + seq!['.'] + b + seq!['e'] + integer_word(x);
    assert(s =~= a + seq!['.'] + b + more);
    lemma_parts(a, b, more);
    if a.len() > 0 {
        assert(s[0] == a[0]);
    } else {
        assert(s[0] == '.');
    }
    lemma_unsigned(minus, s);
    lemma_join_digits(a, b);
    lemma_worth(a + b);
    let end = a.len() as int + 1 + b.len();
    assert(s[end] == 'e');
    assert(s.skip(end + 1) =~= integer_word(x));
    writing::lemma_integers(x);
    let e = x - b.len();
    assert(decimal::decimal_of(s) == Some((worth(a + b), e)));
    assert(decimal::ten(0) == 1);
    if e >= 0 {
        lemma_tens(e as nat);
    } else {
        lemma_tens((-e) as nat);
        assert(decimal::numerator(worth(a + b), e) == worth(a + b) * 1 * pow2(1074));
    }
}

/// What the parts of a line of a shard stand for: a string for itself, and the other texts for null, the
/// booleans, integers of 64 bits, and arrays and objects as they are written.
pub proof fn lemma_json_texts(s: Seq<char>, text: Seq<char>, i: int)
    ensures
        json::value_of(Some(s), text) == JsonView::String(s),
        json::value_of(None, "null"@) == JsonView::Null,
        json::value_of(None, "true"@) == JsonView::Bool(true),
        json::value_of(None, "false"@) == JsonView::Bool(false),
        i64::MIN <= i <= u64::MAX ==> json::value_of(None, integer_word(i)) == JsonView::Number(
            Num::Int(i as i128),
        ),
        text.len() > 0 && text[0] == '[' ==> json::value_of(None, text) == JsonView::Array(text),
        text.len() > 0 && text[0] == '{' ==> json::value_of(None, text) == JsonView::Object(text),
{
    reveal_strlit("null");
    reveal_strlit("true");
    reveal_strlit("false");
    let w = integer_word(i);
    writing::lemma_integers(i);
    let n = float::magnitude_of(i);
    writing::lemma_decimal_text(n);
    assert(decimal::is_digit(text::decimal_text(n)[0]));
}

/// A plus sign before an integer does not change it.
pub proof fn lemma_plus(i: nat)
    requires
        i <= i128::MAX,
    ensures
        number_value(JsonView::String(seq!['+'] + text::decimal_text(i))) == Some(Num::Int(i as i128)),
        float_value(JsonView::String(seq!['+'] + text::decimal_text(i))) == Some(
            float::nearest_int(i as int),
        ),
{
    let w = seq!['+'] + text::decimal_text(i);
    let d = text::decimal_text(i);
    writing::lemma_decimal_text(i);
    assert(decimal::is_digit(d[d.len() - 1]));
    let none = Seq::<char>::empty();
    assert(none + w + none =~= w);
    assert(w.last() == d.last());
    lemma_trimmed(none, w, none);
    assert(decimal::unsigned(w) =~= d);
    decimal::lemma_run(d, 0, d.len());
    assert(d.take(d.len() as int) =~= d);
    assert(decimal::decimal_of(d) == Some((i, 0int)));
    assert(decimal::ten(0) == 1);
    assert(decimal::numerator(i, 0) == i * 1 * pow2(1074));
}

/// A character of decimal numbers.
pub open spec fn numeric(c: char) -> bool {
    '0' <= c <= '9' || c == '+' || c == '-' || c == '.' || c == 'e' || c == 'E'
}

proof fn lemma_run_digits(s: Seq<char>, from: int)
    requires
        0 <= from,
    ensures
        from <= s.len() ==> from + decimal::digit_run(s, from) <= s.len(),
        forall|i: int|
            from <= i < from + decimal::digit_run(s, from) ==> decimal::is_digit(#[trigger] s[i]),
    decreases s.len() - from,
{
    if from < s.len() && decimal::is_digit(s[from]) {
        lemma_run_digits(s, from + 1);
    }
}

proof fn lemma_integer_numeric(s: Seq<char>)
    ensures
        decimal::integer_of(s) is Some ==> forall|i: int| 0 <= i < s.len() ==> numeric(#[trigger] s[i]),
{
    if decimal::integer_of(s) is Some {
        let body = decimal::unsigned(s);
        lemma_run_digits(body, 0);
        assert forall|i: int| 0 <= i < s.len() implies numeric(#[trigger] s[i]) by {
            lemma_digit(s[i]);
            if decimal::has_sign(s) {
                if i > 0 {
                    assert(body[i - 1] == s[i]);
                    assert(decimal::is_digit(body[i - 1]));
                }
            } else {
                assert(decimal::is_digit(body[i]));
            }
        }
    }
}

proof fn lemma_decimal_numeric(s: Seq<char>)
    ensures
        decimal::decimal_of(s) is Some ==> forall|i: int| 0 <= i < s.len() ==> numeric(#[trigger] s[i]),
{
    if decimal::decimal_of(s) is Some {
        let whole = decimal::digit_run(s, 0) as int;
        lemma_run_digits(s, 0);
        let point = whole < s.len() && s[whole] == '.';
        let end = if point {
            whole + 1 + decimal::digit_run(s, whole + 1)
        } else {
            whole
        };
        if point {
            lemma_run_digits(s, whole + 1);
        }
        let x = s.skip(end + 1);
        if end < s.len() {
            lemma_integer_numeric(x);
        }
        assert forall|i: int| 0 <= i < s.len() implies numeric(#[trigger] s[i]) by {
            lemma_digit(s[i]);
            if i < whole {
                assert(decimal::is_digit(s[i]));
            } else if point && whole < i < end {
                assert(decimal::is_digit(s[i]));
            } else if i > end {
                assert(x[i - end - 1] == s[i]);
            }
        }
    }
}

/// The word without its sign.
pub open spec fn without_sign(s: Seq<char>) -> Seq<char> {
    if s.len() > 0 && (s[0] == '+' || s[0] == '-') {
        s.skip(1)
    } else {
        s
    }
}

/// A string with a character that no decimal number has stands for none, unless it is a word for infinity
/// or for no number; and a blank one stands for none.
pub proof fn lemma_no_numbers(s: Seq<char>, i: int)
    ensures
        0 <= i < s.len() && !numeric(s[i]) && !writing::says(without_sign(s), "INF"@) && !writing::says(
            without_sign(s),
            "INFINITY"@,
        ) && !writing::says(without_sign(s), "NAN"@) ==> float_value(JsonView::String(s)) is None,
        s.len() == 0 ==> float_value(JsonView::String(s)) is None,
        blank(s) ==> number_value(JsonView::String(s)) is None,
{
    lemma_words(without_sign(s));
    if 0 <= i < s.len() && !numeric(s[i]) {
        let body = decimal::unsigned(s);
        assert(body == without_sign(s));
        lemma_decimal_numeric(body);
        if decimal::has_sign(s) {
            assert(body[i - 1] == s[i]);
        }
    }
    let none = Seq::<char>::empty();
    lemma_words(none);
    if s.len() == 0 {
        assert(s =~= none);
    }
    if blank(s) {
        lemma_trimmed(s, none, none);
        assert(s + none + none =~= s);
    }
}

proof fn lemma_words(w: Seq<char>)
    ensures
        decimal::same_word(w, "inf"@) <==> writing::says(w, "INF"@),
        decimal::same_word(w, "infinity"@) <==> writing::says(w, "INFINITY"@),
        decimal::same_word(w, "nan"@) <==> writing::says(w, "NAN"@),
        writing::says(w, "INF"@) || writing::says(w, "INFINITY"@) || writing::says(w, "NAN"@) ==> w.len() > 0
            && w[0] != '+' && w[0] != '-' && w[0] != '.' && !('0' <= w[0] <= '9'),
{
    reveal_strlit("inf");
    reveal_strlit("infinity");
    reveal_strlit("nan");
    reveal_strlit("INF");
    reveal_strlit("INFINITY");
    reveal_strlit("NAN");
    writing::lemma_either_case(w, "INF"@);
    writing::lemma_either_case(w, "INFINITY"@);
    writing::lemma_either_case(w, "NAN"@);
    assert forall|i: int| 0 <= i < 3 implies decimal::folded("inf"@[i]) == #[trigger] decimal::folded(
        "INF"@[i],
    ) by {}
    assert forall|i: int| 0 <= i < 3 implies decimal::folded("nan"@[i]) == #[trigger] decimal::folded(
        "NAN"@[i],
    ) by {}
    assert forall|i: int| 0 <= i < 8 implies decimal::folded("infinity"@[i]) == #[trigger] decimal::folded(
        "INFINITY"@[i],
    ) by {}
}

/// The words for infinity, in either case and with a sign or without, stand for it.
pub proof fn lemma_infinity(minus: bool, w: Seq<char>)
    requires
        writing::says(w, "INF"@) || writing::says(w, "INFINITY"@),
    ensures
        float_value(JsonView::String(sign_text(minus) + w)) matches Some(f) && f.is_infinite() && f.negative()
            == minus,
{
    lemma_words(w);
    lemma_unsigned(minus, w);
    lemma_digit(w[0]);
    assert(decimal::digit_run(w, 0) == 0);
    assert(decimal::decimal_of(w) is None);
}

/// A JSON number that is no integer of 64 bits stands for the floating-point number nearest to it.
pub proof fn lemma_json_numbers(t: Seq<char>)
    requires
        t.len() > 0,
        '0' <= t[0] <= '9' || t[0] == '-',
        decimal::integer_of(t) matches Some(i) ==> i < i64::MIN || u64::MAX < i,
        float_value(JsonView::String(t)) is Some,
    ensures
        json::value_of(None, t) == JsonView::Number(Num::Float(float_value(JsonView::String(t))->0)),
{
}

/// How far two values lie apart.
pub open spec fn apart(a: int, b: int) -> int {
    if a < b {
        b - a
    } else {
        a - b
    }
}

/// A value is rounded to the magnitude nearest to it, and where it lies halfway between two to the even
/// one.
pub proof fn lemma_nearest(num: nat, den: nat, k: nat)
    requires
        den > 0,
        k < float::INFINITE,
        float::round(num, den) < float::INFINITE,
    ensures
        apart((float::mag_units(float::round(num, den)) * den) as int, num as int) <= apart(
            (float::mag_units(k) * den) as int,
            num as int,
        ),
        k != float::round(num, den) && apart((float::mag_units(float::round(num, den)) * den) as int, num as int)
            == apart((float::mag_units(k) * den) as int, num as int) ==> float::round(num, den) % 2 == 0,
{
    let m = float::round(num, den);
    float::lemma_round_exists(num, den);
    let x = float::mag_units(m);
    let y = float::mag_units(k);
    if k < m {
        let z = float::mag_units((m - 1) as nat);
        if k < m - 1 {
            float::lemma_increasing(k, (m - 1) as nat);
        }
        float::lemma_increasing((m - 1) as nat, m);
        assert(y * den <= z * den) by (nonlinear_arith)
            requires
                y <= z,
        ;
        assert(z * den < x * den) by (nonlinear_arith)
            requires
                z < x,
                den > 0,
        ;
        assert((z + x) * den == z * den + x * den) by (nonlinear_arith);
        if k < m - 1 {
            assert(y * den < z * den) by (nonlinear_arith)
                requires
                    y < z,
                    den > 0,
            ;
        }
    } else if k > m {
        let z = float::mag_units(m + 1);
        if k > m + 1 {
            float::lemma_increasing(m + 1, k);
        }
        float::lemma_increasing(m, m + 1);
        assert(z * den <= y * den) by (nonlinear_arith)
            requires
                z <= y,
        ;
        assert(x * den < z * den) by (nonlinear_arith)
            requires
                x < z,
                den > 0,
        ;
        assert((x + z) * den == x * den + z * den) by (nonlinear_arith);
        if k > m + 1 {
            assert(z * den < y * den) by (nonlinear_arith)
                requires
                    z < y,
                    den > 0,
            ;
        }
    }
}

/// No number is nearer to the exact sum of two than what their addition gives.
pub proof fn lemma_sum_is_nearest(a: Float, b: Float, g: Float)
    requires
        a.mag() < float::INFINITE,
        b.mag() < float::INFINITE,
        g.mag() < float::INFINITE,
        float::sum_of(a, b).mag() < float::INFINITE,
    ensures
        apart(float::sum_of(a, b).units(), a.units() + b.units()) <= apart(g.units(), a.units() + b.units()),
{
    let exact = a.units() + b.units();
    let f = float::sum_of(a, b);
    float::lemma_zero_units();
    if exact != 0 {
        let n = float::magnitude_of(exact);
        float::lemma_round_exists(n, 1);
        let m = float::round(n, 1);
        assert(f.mag() == m && f.negative() == (exact < 0)) by {
            float::lemma_nearest_units(exact);
        }
        lemma_nearest(n, 1, g.mag());
        lemma_nearest(n, 1, 0);
    }
}

/// The quotient of two integers of up to 53 bits is the number nearest to the exact quotient.
pub proof fn lemma_quotient(t: int, c: int)
    requires
        float::magnitude_of(t) <= float::whole_limit(),
        0 < c <= float::whole_limit(),
    ensures
        float::quotient_of(float::nearest_int(t), float::nearest_int(c)) == float::signed(
            t < 0,
            float::round(float::magnitude_of(t) * pow2(1074), c as nat),
        ),
{
    let one = pow2(1074);
    vstd::arithmetic::power2::lemma_pow2_pos(1074);
    let a = float::nearest_int(t);
    let b = float::nearest_int(c);
    float::lemma_grid(t, 1074);
    float::lemma_grid(c, 1074);
    float::lemma_zero_units();
    let n = float::magnitude_of(t);
    if t < 0 {
        assert(t * one == -(n * one)) by (nonlinear_arith)
            requires
                n == -t,
        ;
    }
    assert(float::mag_units(a.mag()) == n * one);
    assert(float::mag_units(b.mag()) == c * one);
    assert(c * one > 0) by (nonlinear_arith)
        requires
            c > 0,
            one > 0,
    ;
    assert(b.mag() != 0);
    lemma_scaled(n * one, c as nat, one);
}

proof fn lemma_scaled(num: nat, den: nat, by: nat)
    requires
        by > 0,
        den > 0,
    ensures
        float::round(num * by, den * by) == float::round(num, den),
{
    float::lemma_round_exists(num, den);
    let m = float::round(num, den);
    if m > 0 {
        let low = float::mag_units((m - 1) as nat) + float::mag_units(m);
        lemma_scaled_order(low, den, num, by);
    }
    if m < float::INFINITE {
        let high = float::mag_units(m) + float::mag_units(m + 1);
        lemma_scaled_order(high, den, num, by);
    }
    assert(den * by > 0) by (nonlinear_arith)
        requires
            den > 0,
            by > 0,
    ;
    float::lemma_round_is(m, num * by, den * by);
}

proof fn lemma_scaled_order(x: nat, den: nat, num: nat, by: nat)
    requires
        by > 0,
    ensures
        x * (den * by) < 2 * (num * by) <==> x * den < 2 * num,
        x * (den * by) == 2 * (num * by) <==> x * den == 2 * num,
        x * (den * by) > 2 * (num * by) <==> x * den > 2 * num,
{
    let p = x * den;
    let q = 2 * num;
    assert(x * (den * by) == p * by) by (nonlinear_arith)
        requires
            p == x * den,
    ;
    assert(2 * (num * by) == q * by) by (nonlinear_arith)
        requires
            q == 2 * num,
    ;
    if p < q {
        assert(p * by < q * by) by (nonlinear_arith)
            requires
                p < q,
                by > 0,
        ;
    } else if p > q {
        assert(p * by > q * by) by (nonlinear_arith)
            requires
                p > q,
                by > 0,
        ;
    }
}

/// A string that is no integer of 128 bits stands for a sum for the floating-point number that it is, also
/// with white space around it, and for none where it is none.
pub proof fn lemma_other_strings(a: Seq<char>, s: Seq<char>, b: Seq<char>)
    requires
        blank(a),
        blank(b),
        s.len() > 0 ==> !white(s[0]) && !white(s.last()),
        decimal::integer_of(s) matches Some(i) ==> i < i128::MIN || i128::MAX < i,
    ensures
        number_value(JsonView::String(a + s + b)) == (match float_value(JsonView::String(s)) {
            Some(f) => Some(Num::Float(f)),
            None => None,
        }),
{
    lemma_trimmed(a, s, b);
}

/// A number that is finite comes out as itself, and any other as null.
pub proof fn lemma_numbers_come_out(f: Float)
    ensures
        !f.is_nan_spec() && !f.is_infinite() ==> combine::float_json(f) == JsonView::Number(Num::Float(f)),
        f.is_nan_spec() || f.is_infinite() ==> combine::float_json(f) == JsonView::Null,
{
}

} // verus!
