use ce_query::decimal::{read_float, read_integer};
use ce_query::float::Float;
use ce_query::table::Table;
use ce_query::text::{before, trim, write_decimal};

fn float(x: f64) -> Float {
    Float { bits: x.to_bits() }
}

fn chars(s: &str) -> Vec<char> {
    s.chars().collect()
}

/// Bit patterns of all kinds.
fn samples() -> Vec<f64> {
    let mut out = vec![
        0.0,
        -0.0,
        1.0,
        -1.0,
        0.1,
        0.2,
        0.3,
        1e308,
        f64::MAX,
        f64::MIN_POSITIVE,
        f64::from_bits(1),
        f64::from_bits(0x000f_ffff_ffff_ffff),
        f64::INFINITY,
        f64::NEG_INFINITY,
        4503599627370495.5,
        9007199254740991.0,
        9007199254740993.0,
    ];
    let mut x: u64 = 0x9e37_79b9_7f4a_7c15;
    for _ in 0..60 {
        x ^= x << 13;
        x ^= x >> 7;
        x ^= x << 17;
        out.push(f64::from_bits(x));
    }
    for i in 0..40 {
        out.push((i as f64 - 20.0) * 1.25e-3);
        out.push(1.0 + (i as f64) * f64::EPSILON);
    }
    out
}

fn same(a: Float, b: f64) -> bool {
    (a.is_nan() && b.is_nan()) || a.bits == b.to_bits()
}

#[test]
fn sums_and_quotients_are_rounded_as_the_machine_does() {
    for a in samples() {
        for b in samples() {
            assert!(same(float(a).plus(float(b)), a + b), "{a:e} + {b:e}");
            assert!(same(float(a).over(float(b)), a / b), "{a:e} / {b:e}");
            assert_eq!(float(a).lt(float(b)), a < b);
            assert_eq!(float(a).eq(float(b)), a == b);
            let least = float(a).min(float(b));
            assert!(same(least, a.min(b)) || (a == b && f64::from_bits(least.bits) == a));
            let greatest = float(a).max(float(b));
            assert!(same(greatest, a.max(b)) || (a == b && f64::from_bits(greatest.bits) == a));
        }
    }
}

#[test]
fn integers_are_rounded_as_the_machine_does() {
    let mut x: u128 = 1;
    for i in 0..128u32 {
        for d in [0u128, 1, 3] {
            let v = (x.wrapping_add(d).wrapping_mul(0x1_0000_0001_0000_0003) >> (i % 7)) as i128;
            assert!(same(Float::nearest(v), v as f64), "{v}");
        }
        x = x.wrapping_mul(2).wrapping_add(1);
    }
    for v in [0, 1, -1, i128::MAX, i128::MIN, (1 << 53) + 1, (1 << 54) + 2, (1 << 54) + 6] {
        assert!(same(Float::nearest(v), v as f64), "{v}");
    }
}

#[test]
fn decimals_are_read_as_std_reads_them() {
    let mut texts: Vec<String> = [
        "0", "-0", "+1", "1.", ".5", "1.5", "1e5", "1E-5", "1e+5", "123456789012345678901234567890",
        "9007199254740993", "9007199254740992.5", "2.2250738585072014e-308",
        "2.2250738585072011e-308", "4.9e-324", "2.4703282292062327e-324",
        "2.4703282292062328e-324", "1.7976931348623157e308", "1.7976931348623159e308", "1e309",
        "1e-400", "0e999999999999999999999", "1e99999999999999999999999999",
        "1e-99999999999999999999999999", "0.000000000000000000000000000000000001e36", "inf", "-Inf",
        "INFINITY", "nan", "NaN", "", "+", "-", ".", "e5", "1e", "1e+", "1.5.5", "1 ", " 1", "0x10",
        "1_000", "infinit", "nano", "--1", "1e5.5", "٣",
        "8.5e-1", "179769313486231580793728971405303415079934132710037826936173778980444968292764750946649017977587207096330286416692887910946555547851940402630657488671505820681908902000708383676273854845817711531764475730270069855571366959622842914819860834936475292719074168444365510704342711559699508093042880",
    ]
    .iter()
    .map(|s| s.to_string())
    .collect();
    for x in samples() {
        texts.push(format!("{x}"));
        texts.push(format!("{x:e}"));
        texts.push(format!("{x:.20}"));
    }
    for t in texts {
        let want = t.parse::<f64>().ok();
        let got = read_float(&chars(&t));
        match (got, want) {
            (None, None) => {}
            (Some(g), Some(w)) => assert!(same(g, w), "{t}: {:e} for {w:e}", f64::from_bits(g.bits)),
            other => panic!("{t}: {other:?}"),
        }
    }
}

#[test]
fn integers_are_read_as_std_reads_them() {
    for t in [
        "0",
        "-0",
        "+7",
        "-7",
        "",
        "+",
        "1.0",
        "00012",
        "170141183460469231731687303715884105727",
        "170141183460469231731687303715884105728",
        "-170141183460469231731687303715884105728",
        "-170141183460469231731687303715884105729",
        "99999999999999999999999999999999999999999999",
        "1a",
    ] {
        assert_eq!(read_integer(&chars(t)), t.parse::<i128>().ok(), "{t}");
    }
}

#[test]
fn white_space_is_what_std_takes_for_it() {
    for code in 0..0x11_0000u32 {
        if let Some(c) = char::from_u32(code) {
            assert_eq!(ce_query::text::space(c), c.is_whitespace(), "{code:x}");
        }
    }
    for t in ["", " ", " a b\t", "\u{3000}x\u{85}", "no"] {
        assert_eq!(trim(t), t.trim());
    }
}

#[test]
fn strings_are_ordered_as_std_orders_them() {
    let words = ["", "a", "ab", "b", "B", "é", "\u{ffff}", "\u{10000}", "zz"];
    for a in words {
        for b in words {
            assert_eq!(before(a, b), a < b, "{a} {b}");
        }
    }
    for n in [0, 9, 10, 12345, u128::MAX] {
        assert_eq!(write_decimal(n), n.to_string());
    }
}

#[test]
fn tables_keep_their_keys_in_order() {
    let mut t: Table<String, usize> = Table::new();
    for (i, k) in ["m", "a", "z", "a", "k"].iter().enumerate() {
        t.insert(k.to_string(), i);
    }
    assert_eq!(t.len(), 4);
    let keys: Vec<&str> = (0..t.len()).map(|i| t.key_at(i).as_str()).collect();
    assert_eq!(keys, vec!["a", "k", "m", "z"]);
    assert_eq!(t.get(&"a".to_string()), Some(&3));
    assert_eq!(t.remove(&"a".to_string()), Some(3));
    assert_eq!(t.remove(&"a".to_string()), None);
    assert_eq!(t.position(&"m".to_string()), Some(1));
    assert_eq!(t.exchange(1, 9), 0);
    assert_eq!(t.clone(), t);
}

#[test]
fn numbers_compare_with_integers_by_value() {
    for x in samples() {
        if x.is_nan() {
            continue;
        }
        for i in [0i128, 1, -1, 7, 1 << 53, (1 << 53) + 1, -(1 << 53) - 1, i128::MAX, i128::MIN] {
            let expected = if x.is_infinite() || x.abs() >= 1.8e38 {
                if x < 0.0 { -1 } else { 1 }
            } else {
                let floor = x.floor() as i128;
                if floor < i {
                    -1
                } else if floor > i || x.floor() < x {
                    1
                } else {
                    0
                }
            };
            assert_eq!(float(x).compare_int(i).signum(), expected, "{x} {i}");
        }
    }
}
