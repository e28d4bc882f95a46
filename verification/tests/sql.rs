use ce_query::float::Float;
use ce_query::json::{Json, Num};
use ce_query::query::{Agg, CmpOp, OrderDir, OrderKey, Predicate, Query, QueryError};
use ce_query::sql::{parse, tokenize, SqlError, Tok};

fn whole(i: i128) -> Json {
    Json::Number(Num::Int(i))
}

fn literal(sql: &str) -> Json {
    match parse(sql).unwrap().predicate {
        Predicate::Cmp { value, .. } => value,
        other => panic!("unexpected predicate {other:?}"),
    }
}

#[test]
fn parse_simple_count() {
    let q = parse("SELECT COUNT(*) FROM events").unwrap();
    assert_eq!(q.dataset, "events");
    assert_eq!(q.aggregates, vec![Agg::Count]);
    assert_eq!(q.predicate, Predicate::True);
    assert!(q.group_by.is_empty());
}

#[test]
fn parse_sum_with_where_and_group() {
    let q = parse("SELECT SUM(amount), COUNT(*) FROM sales WHERE region = 'EU' GROUP BY product")
        .unwrap();
    assert_eq!(q.dataset, "sales");
    assert_eq!(q.aggregates, vec![Agg::Sum("amount".into()), Agg::Count]);
    assert_eq!(q.group_by, vec!["product".to_string()]);
    match &q.predicate {
        Predicate::Cmp { field, op, value } => {
            assert_eq!(field, "region");
            assert_eq!(*op, CmpOp::Eq);
            assert_eq!(*value, Json::String("EU".into()));
        }
        other => panic!("unexpected predicate {other:?}"),
    }
}

#[test]
fn parse_and_or_not() {
    let q = parse("SELECT AVG(v) FROM t WHERE a > 10 AND NOT b = 'x' OR c <= 3").unwrap();
    match &q.predicate {
        Predicate::Or(l, r) => {
            assert!(matches!(**l, Predicate::And(_, _)));
            assert!(matches!(**r, Predicate::Cmp { .. }));
        }
        other => panic!("unexpected predicate {other:?}"),
    }
}

#[test]
fn case_insensitive_keywords() {
    let q = parse("select count(*) from t where x >= 1 group by y").unwrap();
    assert_eq!(q.aggregates, vec![Agg::Count]);
    assert_eq!(q.group_by, vec!["y".to_string()]);
}

#[test]
fn operators_all_parse() {
    for (s, want) in [
        ("=", CmpOp::Eq),
        ("!=", CmpOp::Ne),
        ("<>", CmpOp::Ne),
        ("<", CmpOp::Lt),
        ("<=", CmpOp::Le),
        (">", CmpOp::Gt),
        (">=", CmpOp::Ge),
    ] {
        let q = parse(&format!("SELECT COUNT(*) FROM t WHERE a {s} 1")).unwrap();
        match q.predicate {
            Predicate::Cmp { op, .. } => assert_eq!(op, want, "op {s}"),
            _ => panic!("expected cmp"),
        }
    }
}

#[test]
fn numeric_and_bool_and_null_literals() {
    assert_eq!(
        literal("SELECT COUNT(*) FROM t WHERE a = 3.5"),
        Json::Number(Num::Float(Float { bits: 3.5f64.to_bits() }))
    );
    assert_eq!(literal("SELECT COUNT(*) FROM t WHERE flag = true"), Json::Bool(true));
    let q = parse("SELECT COUNT(*) FROM t WHERE x != null").unwrap();
    match q.predicate {
        Predicate::Cmp { value, op, .. } => {
            assert_eq!(value, Json::Null);
            assert_eq!(op, CmpOp::Ne);
        }
        _ => panic!(),
    }
}

#[test]
fn other_literals() {
    assert_eq!(literal("SELECT COUNT(*) FROM t WHERE a = -7"), whole(-7));
    assert_eq!(literal("SELECT COUNT(*) FROM t WHERE a = FALSE"), Json::Bool(false));
    assert_eq!(literal("SELECT COUNT(*) FROM t WHERE a = word"), Json::String("word".into()));
    for word in ["NaN", "nan", "inf", "-Infinity", "1e999"] {
        assert_eq!(
            literal(&format!("SELECT COUNT(*) FROM t WHERE a = {word}")),
            Json::String(word.to_string())
        );
    }
    assert_eq!(literal("SELECT COUNT(*) FROM t WHERE a = NULL"), Json::Null);
    assert_eq!(
        literal("SELECT COUNT(*) FROM t WHERE a = 9223372036854775808"),
        Json::Number(Num::Float(Float { bits: 9223372036854775808f64.to_bits() }))
    );
    assert_eq!(literal("SELECT COUNT(*) FROM t WHERE a='true'"), Json::String("true".into()));
    assert_eq!(
        literal("SELECT COUNT(*) FROM t WHERE a>=1e3"),
        Json::Number(Num::Float(Float { bits: 1000f64.to_bits() }))
    );
}

#[test]
fn operators_need_no_blanks() {
    let words = |text: &str| -> Vec<Tok> { tokenize(text).unwrap() };
    let w = |t: &str| Tok::Word(t.to_string());
    assert_eq!(words("a!=1"), vec![w("a"), w("!="), w("1")]);
    assert_eq!(words("a<=1"), vec![w("a"), w("<="), w("1")]);
    assert_eq!(words("a!b"), vec![w("a!b")]);
    assert_eq!(
        words("f(x,'a b')>=2"),
        vec![w("f"), w("("), w("x"), w(","), Tok::Str("a b".into()), w(")"), w(">="), w("2")]
    );
    for text in ["a!=1 AND b<>2", "SELECT COUNT(*)FROM t WHERE n='x  y'"] {
        let tight = words(text);
        let back: String = tight
            .iter()
            .map(|t| match t {
                Tok::Word(x) => x.clone(),
                Tok::Str(x) => format!("'{x}'"),
            })
            .collect();
        let mut quoted = false;
        let bare: String = text
            .chars()
            .filter(|c| {
                if *c == '\'' {
                    quoted = !quoted;
                }
                quoted || !c.is_whitespace()
            })
            .collect();
        assert_eq!(back, bare);
    }
    assert_eq!(words(" a \t!=\n1 "), words("a!=1"));
    assert_eq!(words("COUNT ( * )FROM t"), words("COUNT(*) FROM   t"));
}

#[test]
fn errors_are_graceful_not_panics() {
    assert!(parse("").is_err());
    assert!(parse("SELECT FROM t").is_err());
    assert!(parse("SELECT FOO(x) FROM t").is_err());
    assert!(parse("SELECT COUNT(*)").is_err()); // no FROM
    assert!(parse("SELECT SUM(*) FROM t").is_err()); // * only valid for COUNT
    assert!(parse("SELECT COUNT(*) FROM t WHERE a 1").is_err()); // missing op
    assert!(parse("SELECT COUNT(*) FROM t junk").is_err()); // trailing
    assert!(parse("SELECT COUNT(*) FROM t WHERE a = 'unterminated").is_err());
}

#[test]
fn each_error_has_its_input() {
    let word = |w: &str| Some(Tok::Word(w.to_string()));
    let cases = vec![
        ("", SqlError::Expected("SELECT".into(), None)),
        ("SELECT FROM t", SqlError::Expected("FROM".into(), word("t"))),
        ("SELECT ,", SqlError::NoSelection),
        ("SELECT foo(x) FROM t", SqlError::UnknownFunction("FOO".into())),
        ("SELECT COUNT(*)", SqlError::Expected("FROM".into(), None)),
        ("SELECT SUM(*) FROM t", SqlError::StarArgument),
        ("SELECT SUM('x') FROM t", SqlError::NoArgument(Some(Tok::Str("x".into())))),
        ("SELECT SUM(a b FROM t", SqlError::Expected(")".into(), word("b"))),
        ("SELECT SUM(a), b FROM t", SqlError::Expected("(".into(), word("FROM"))),
        ("SELECT a FROM =", SqlError::NoDataset),
        ("SELECT a FROM t WHERE = 1", SqlError::NoField),
        ("SELECT a FROM t WHERE a 1", SqlError::UnknownOperator("1".into())),
        ("SELECT a FROM t WHERE a '='", SqlError::NoOperator(Some(Tok::Str("=".into())))),
        ("SELECT a FROM t WHERE a =", SqlError::NoLiteral),
        ("SELECT COUNT(*) FROM t WHERE a = )", SqlError::NoLiteral),
        ("SELECT COUNT(*) FROM t WHERE a = ,", SqlError::NoLiteral),
        ("SELECT COUNT(*) FROM t WHERE a = >=", SqlError::NoLiteral),
        ("SELECT SUM(,) FROM t", SqlError::NoArgument(word(","))),
        ("SELECT SUM()) FROM t", SqlError::NoArgument(word(")"))),
        ("SELECT a, * FROM t", SqlError::NoSelection),
        ("SELECT COUNT(*) FROM t GROUP a", SqlError::Expected("BY".into(), word("a"))),
        ("SELECT COUNT(*) FROM t GROUP BY", SqlError::NoColumn("GROUP BY".into())),
        ("SELECT COUNT(*) FROM t ORDER BY ,", SqlError::NoColumn("ORDER BY".into())),
        ("SELECT a FROM t LIMIT x", SqlError::BadLimit(word("x"))),
        ("SELECT a FROM t LIMIT -1", SqlError::BadLimit(word("-1"))),
        ("SELECT a FROM t LIMIT", SqlError::BadLimit(None)),
        ("SELECT a FROM t junk", SqlError::Trailing("junk".into())),
        ("SELECT a FROM t 'junk'", SqlError::Trailing("<eof>".into())),
        ("SELECT a FROM t WHERE a = 'x", SqlError::Unterminated),
        ("SELECT a FROM t GROUP BY a", SqlError::Invalid(QueryError::ProjectionWithGroups)),
    ];
    for (text, error) in cases {
        assert_eq!(parse(text), Err(error), "{text}");
    }
}

#[test]
fn errors_in_words() {
    assert_eq!(
        parse("SELECT a \"b\\\"").unwrap_err().message(),
        "expected `FROM`, found Some(Str(\"b\\\\\"))"
    );
    assert_eq!(parse("x").unwrap_err().message(), "expected `SELECT`, found Some(Word(\"x\"))");
    assert_eq!(parse("").unwrap_err().message(), "expected `SELECT`, found None");
    assert_eq!(
        parse("SELECT foo(x) FROM t").unwrap_err().message(),
        "unknown aggregate function `FOO`"
    );
    assert_eq!(
        parse("SELECT a FROM t x").unwrap_err().message(),
        "unexpected trailing input near token x"
    );
    assert_eq!(
        parse("SELECT a FROM t WHERE a ~ 1").unwrap_err().message(),
        "unknown comparison operator `~`"
    );
}

#[test]
fn group_by_multiple_columns() {
    let q = parse("SELECT COUNT(*) FROM t GROUP BY a, b, c").unwrap();
    assert_eq!(q.group_by, vec!["a".to_string(), "b".to_string(), "c".to_string()]);
}

#[test]
fn double_quoted_string_literal() {
    assert_eq!(
        literal("SELECT COUNT(*) FROM t WHERE name = \"alice\""),
        Json::String("alice".into())
    );
}

#[test]
fn projections_order_and_limit() {
    let q = parse("SELECT region, amount FROM sales WHERE amount >= 100 ORDER BY amount DESC, region LIMIT 10").unwrap();
    assert_eq!(q.projection, Some(vec!["region".to_string(), "amount".to_string()]));
    assert!(q.aggregates.is_empty());
    assert_eq!(q.order_by, vec![OrderKey::desc("amount"), OrderKey::asc("region")]);
    assert_eq!(q.limit, Some(10));
    let q = parse("select * from t order by a asc limit 0").unwrap();
    assert_eq!(q.projection, Some(vec![]));
    assert_eq!(q.order_by[0].dir, OrderDir::Asc);
    assert_eq!(q.limit, Some(0));
}

#[test]
fn builder_equals_sql() {
    let q = Query::new("t").agg(Agg::Count).group("g");
    let q2 = parse("SELECT COUNT(*) FROM t GROUP BY g").unwrap();
    assert_eq!(q, q2);
    let q = Query::new("sales").agg(Agg::Sum("amount".into())).agg(Agg::Count).group("region");
    let q2 = parse("SELECT SUM(amount), COUNT(*) FROM sales GROUP BY region").unwrap();
    assert_eq!(q, q2);
}
