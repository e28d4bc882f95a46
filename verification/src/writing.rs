//! Queries as texts: what is written is what is read back.

use crate::algebra;
use crate::combine::Accum;
use crate::conditions;
use crate::dataset::RowView;
use crate::decimal;
use crate::grouping;
use crate::json::{JsonView, Num};
use crate::query::{AggView, CmpOp, OrderDir, OrderKeyView, PredicateView, QueryView};
use crate::sql;
use crate::sql::{
    agg_at, aggregate, aggs_at, bare, clauses_at, comparison_at, condition_at, group_at,
    is_exactly, is_kw, is_operator, limit_at, literal, names_at, operator, order_at,
    order_keys_at, parsed, query_at, row_count, selection_at, term_at, token_at, tokens_from, where_at,
    SqlErrorView, TokView,
};
use crate::text;
use vstd::prelude::*;
use vstd::string::*;

verus! {

/// How a query is written: with its keywords in upper or in lower case, with `ASC` left out and `<>`
/// for `!=` or not, and with or without the spaces around marks and operators.
pub struct Style {
    pub loud: bool,
    pub short: bool,
    pub tight: bool,
}

/// White space.
pub open spec fn white(c: char) -> bool {
    c == ' ' || c == '\t' || c == '\n' || c == '\r' || c == '\u{b}' || c == '\u{c}' || c == '\u{85}' || c
        == '\u{a0}' || c == '\u{1680}' || '\u{2000}' <= c <= '\u{200a}' || c == '\u{2028}' || c
        == '\u{2029}' || c == '\u{202f}' || c == '\u{205f}' || c == '\u{3000}'
}

/// White space is white space.
pub proof fn lemma_white(c: char)
    ensures
        text::is_space(c) <==> white(c),
{
}

/// A character of names: no white space, no quote, and no mark.
pub open spec fn ordinary(c: char) -> bool {
    &&& !white(c)
    &&& c != '=' && c != '<' && c != '>' && c != ',' && c != '(' && c != ')' && c != '*'
    &&& c != '\'' && c != '"'
}

/// A name, as it can stand in a query.
pub open spec fn is_name(w: Seq<char>) -> bool {
    w.len() > 0 && forall|i: int| 0 <= i < w.len() ==> ordinary(#[trigger] w[i])
}

/// A comparison operator.
pub open spec fn compares(w: Seq<char>) -> bool {
    w == seq!['='] || w == seq!['!', '='] || w == seq!['<', '>'] || w == seq!['<'] || w == seq!['<', '=']
        || w == seq!['>'] || w == seq!['>', '=']
}

/// A mark.
pub open spec fn punctuates(w: Seq<char>) -> bool {
    w == seq![','] || w == seq!['('] || w == seq![')'] || w == seq!['*']
}

/// A token that can be written.
pub open spec fn can_stand(t: TokView) -> bool {
    match t {
        TokView::Word(w) => is_name(w) || compares(w) || punctuates(w),
        TokView::Str(s) => !s.contains('\'') || !s.contains('"'),
    }
}

/// A token as it is written.
pub open spec fn spelled(t: TokView) -> Seq<char> {
    match t {
        TokView::Word(w) => w,
        TokView::Str(s) => if s.contains('\'') {
            seq!['"'] + s + seq!['"']
        } else {
            seq!['\''] + s + seq!['\'']
        },
    }
}

pub open spec fn is_comparison(t: TokView) -> bool {
    t matches TokView::Word(w) && compares(w)
}

pub open spec fn is_sign(t: TokView) -> bool {
    t matches TokView::Word(w) && (compares(w) || punctuates(w))
}

/// The token ends in an exclamation mark, which an equals sign must not follow.
pub open spec fn exclaims(t: TokView) -> bool {
    t matches TokView::Word(w) && w.len() > 0 && w.last() == '!'
}

/// Whether two tokens need a space between them.
pub open spec fn apart(style: Style, a: TokView, b: TokView) -> bool {
    !style.tight || !(is_sign(a) || is_sign(b)) || exclaims(a) || (is_comparison(a) && is_comparison(b))
}

/// Tokens as a text.
pub open spec fn text_of(style: Style, toks: Seq<TokView>) -> Seq<char>
    decreases toks.len(),
{
    if toks.len() == 0 {
        Seq::empty()
    } else if toks.len() == 1 {
        spelled(toks[0])
    } else if apart(style, toks[0], toks[1]) {
        spelled(toks[0]) + seq![' '] + text_of(style, toks.skip(1))
    } else {
        spelled(toks[0]) + text_of(style, toks.skip(1))
    }
}

proof fn lemma_starts(style: Style, toks: Seq<TokView>)
    requires
        toks.len() > 0,
        can_stand(toks[0]),
    ensures
        text_of(style, toks).len() >= spelled(toks[0]).len() > 0,
        forall|i: int|
            0 <= i < spelled(toks[0]).len() ==> #[trigger] text_of(style, toks)[i] == spelled(toks[0])[i],
{
}

/// A token is read off the start of a text where what follows does not go on with it.
proof fn lemma_reads(before: Seq<TokView>, t: TokView, rest: Seq<char>)
    requires
        can_stand(t),
        t matches TokView::Word(w) ==> {
            &&& is_name(w) ==> rest.len() == 0 || (sql::ends_word(rest[0]) && !(rest[0] == '=' && w.last()
                == '!')) || sql::starts_unequal(rest)
            &&& (w == seq!['<'] || w == seq!['>']) ==> rest.len() == 0 || (rest[0] != '=' && rest[0] != '>')
        },
    ensures
        tokens_from(before, spelled(t) + rest) == tokens_from(before.push(t), rest),
{
    let s = spelled(t) + rest;
    match t {
        TokView::Str(w) => {
            let q = if w.contains('\'') {
                '"'
            } else {
                '\''
            };
            let n = w.len();
            assert forall|i: int| 0 <= i < n implies #[trigger] s.skip(1)[i] != q by {
                assert(s.skip(1)[i] == w[i]);
                assert(w.contains(w[i]));
            }
            assert(s.skip(1)[n as int] == q);
            sql::lemma_quote_len(s.skip(1), q, n);
            assert(s.subrange(1, n as int + 1) =~= w);
            assert(s.skip(n as int + 2) =~= rest);
        },
        TokView::Word(w) => {
            if is_name(w) {
                let n = w.len();
                assert(ordinary(w[0]));
                lemma_white(w[0]);
                assert forall|i: int| 0 <= i < n implies #[trigger] sql::in_word(s, i) by {
                    assert(s[i] == w[i]);
                    assert(ordinary(w[i]));
                    lemma_white(w[i]);
                    if i + 1 < n {
                        assert(ordinary(w[i + 1]));
                        assert(s[i + 1] == w[i + 1]);
                    } else if i + 1 < s.len() {
                        assert(s[i + 1] == rest[0]);
                    }
                }
                if n < s.len() {
                    assert(s[n as int] == rest[0]);
                    if sql::starts_unequal(rest) {
                        assert(s[n as int + 1] == rest[1]);
                    }
                    assert(!sql::in_word(s, n as int));
                }
                sql::lemma_word_len(s, n);
                if s.len() >= 2 {
                    assert(sql::in_word(s, 0));
                    assert(s[0] == w[0]);
                }
                assert(s.take(n as int) =~= w);
                assert(s.skip(n as int) =~= rest);
            } else {
                assert(s[0] == w[0]);
                if w.len() == 1 {
                    if s.len() >= 2 {
                        assert(s[1] == rest[0]);
                    }
                    assert(s.take(1) =~= w);
                    assert(s.skip(1) =~= rest);
                } else {
                    assert(s[1] == w[1]);
                    assert(s.take(2) =~= w);
                    assert(s.skip(2) =~= rest);
                }
            }
        },
    }
}

/// The tokens of a text of tokens are these tokens.
pub proof fn lemma_tokens_of_text(style: Style, before: Seq<TokView>, toks: Seq<TokView>)
    requires
        forall|i: int| 0 <= i < toks.len() ==> can_stand(#[trigger] toks[i]),
    ensures
        tokens_from(before, text_of(style, toks)) == Ok::<Seq<TokView>, SqlErrorView>(before + toks),
    decreases toks.len(),
{
    if toks.len() == 0 {
        assert(before + toks =~= before);
    } else {
        let t = toks[0];
        let rest = toks.skip(1);
        assert(can_stand(t));
        assert forall|i: int| 0 <= i < rest.len() implies can_stand(#[trigger] rest[i]) by {
            assert(rest[i] == toks[i + 1]);
        }
        lemma_tokens_of_text(style, before.push(t), rest);
        assert(before.push(t) + rest =~= before + toks);
        if toks.len() == 1 {
            assert(spelled(t) + Seq::<char>::empty() =~= spelled(t));
            lemma_reads(before, t, Seq::empty());
            assert(rest =~= Seq::<TokView>::empty());
        } else {
            let more = text_of(style, rest);
            let u = toks[1];
            assert(rest[0] == u);
            assert(can_stand(u));
            lemma_starts(style, rest);
            if apart(style, t, u) {
                let spaced = seq![' '] + more;
                assert(spelled(t) + seq![' '] + more =~= spelled(t) + spaced);
                lemma_reads(before, t, spaced);
                assert(spaced.skip(1) =~= more);
                assert(text::is_space(spaced[0]));
            } else {
                assert(more[0] == spelled(u)[0]);
                if let TokView::Word(w) = u {
                    if is_name(w) {
                        assert(ordinary(w[0]));
                    } else if w.len() == 2 {
                        assert(more[1] == spelled(u)[1]);
                    }
                }
                if let TokView::Word(w) = t {
                    if is_name(w) {
                        assert(!compares(w)) by {
                            assert(ordinary(w[0]));
                            assert(ordinary(w.last()));
                        }
                        assert(!punctuates(w)) by {
                            assert(ordinary(w[0]));
                        }
                    }
                }
                lemma_reads(before, t, more);
            }
        }
    }
}

/// A word in the style's case.
pub open spec fn cased(style: Style, upper: Seq<char>, lower: Seq<char>) -> Seq<char> {
    if style.loud {
        upper
    } else {
        lower
    }
}

/// A keyword in the style's case.
pub open spec fn keyword(style: Style, upper: Seq<char>, lower: Seq<char>) -> TokView {
    TokView::Word(cased(style, upper, lower))
}

pub open spec fn mark(w: Seq<char>) -> Seq<TokView> {
    seq![TokView::Word(w)]
}

/// An aggregate: the name of its function, and its argument in brackets.
pub open spec fn aggregate_tokens(style: Style, a: AggView) -> Seq<TokView> {
    let (function, argument) = match a {
        AggView::Count => (keyword(style, "COUNT"@, "count"@), "*"@),
        AggView::Sum(c) => (keyword(style, "SUM"@, "sum"@), c),
        AggView::Min(c) => (keyword(style, "MIN"@, "min"@), c),
        AggView::Max(c) => (keyword(style, "MAX"@, "max"@), c),
        AggView::Avg(c) => (keyword(style, "AVG"@, "avg"@), c),
    };
    seq![function] + mark("("@) + mark(argument) + mark(")"@)
}

/// Aggregates, with commas between them.
pub open spec fn aggregates_tokens(style: Style, aggs: Seq<AggView>) -> Seq<TokView>
    decreases aggs.len(),
{
    if aggs.len() == 0 {
        Seq::empty()
    } else if aggs.len() == 1 {
        aggregate_tokens(style, aggs[0])
    } else {
        aggregate_tokens(style, aggs[0]) + mark(","@) + aggregates_tokens(style, aggs.skip(1))
    }
}

/// Names, with commas between them.
pub open spec fn names_tokens(names: Seq<Seq<char>>) -> Seq<TokView>
    decreases names.len(),
{
    if names.len() == 0 {
        Seq::empty()
    } else if names.len() == 1 {
        mark(names[0])
    } else {
        mark(names[0]) + mark(","@) + names_tokens(names.skip(1))
    }
}

/// A column to sort by, and its direction.
pub open spec fn key_tokens(style: Style, key: OrderKeyView) -> Seq<TokView> {
    match key.dir {
        OrderDir::Desc => mark(key.column) + seq![keyword(style, "DESC"@, "desc"@)],
        OrderDir::Asc => if style.short {
            mark(key.column)
        } else {
            mark(key.column) + seq![keyword(style, "ASC"@, "asc"@)]
        },
    }
}

/// Columns to sort by, with commas between them.
pub open spec fn keys_tokens(style: Style, keys: Seq<OrderKeyView>) -> Seq<TokView>
    decreases keys.len(),
{
    if keys.len() == 0 {
        Seq::empty()
    } else if keys.len() == 1 {
        key_tokens(style, keys[0])
    } else {
        key_tokens(style, keys[0]) + mark(","@) + keys_tokens(style, keys.skip(1))
    }
}

pub open spec fn operator_word(style: Style, op: CmpOp) -> Seq<char> {
    match op {
        CmpOp::Eq => "="@,
        CmpOp::Ne => if style.short {
            "<>"@
        } else {
            "!="@
        },
        CmpOp::Lt => "<"@,
        CmpOp::Le => "<="@,
        CmpOp::Gt => ">"@,
        CmpOp::Ge => ">="@,
    }
}

/// An integer in decimal.
pub open spec fn integer_word(i: int) -> Seq<char> {
    if i < 0 {
        seq!['-'] + text::decimal_text((-i) as nat)
    } else {
        text::decimal_text(i as nat)
    }
}

/// A value that has a literal: null, a boolean, a string without quotes of both kinds, and an integer
/// of 64 bits.
pub open spec fn has_literal(v: JsonView) -> bool {
    match v {
        JsonView::Null => true,
        JsonView::Bool(_) => true,
        JsonView::String(s) => !s.contains('\'') || !s.contains('"'),
        JsonView::Number(Num::Int(i)) => i64::MIN <= i <= i64::MAX,
        _ => false,
    }
}

pub open spec fn literal_token(style: Style, v: JsonView) -> TokView {
    match v {
        JsonView::Null => keyword(style, "NULL"@, "null"@),
        JsonView::Bool(true) => keyword(style, "TRUE"@, "true"@),
        JsonView::Bool(false) => keyword(style, "FALSE"@, "false"@),
        JsonView::String(s) => TokView::Str(s),
        JsonView::Number(Num::Int(i)) => TokView::Word(integer_word(i as int)),
        _ => TokView::Word(Seq::empty()),
    }
}

/// The word, in whatever case, is the keyword `upper`.
pub open spec fn says(w: Seq<char>, upper: Seq<char>) -> bool {
    w.len() == upper.len() && forall|i: int|
        0 <= i < w.len() ==> #[trigger] w[i] == upper[i] || ('A' <= upper[i] <= 'Z' && w[i] as u32
            == upper[i] as u32 + 32)
}

pub open spec fn is_compared(p: PredicateView) -> bool {
    p matches PredicateView::Cmp { field, op, value } && is_name(field) && has_literal(value)
}

pub open spec fn compared_tokens(style: Style, p: PredicateView) -> Seq<TokView> {
    match p {
        PredicateView::Cmp { field, op, value } => mark(field) + mark(operator_word(style, op)) + seq![
            literal_token(style, value),
        ],
        _ => Seq::empty(),
    }
}

/// A comparison, or `NOT` and a comparison.
pub open spec fn is_term(p: PredicateView) -> bool {
    match p {
        PredicateView::Not(c) => is_compared(*c),
        PredicateView::Cmp { field, op, value } => is_compared(p) && !says(field, "NOT"@),
        _ => false,
    }
}

pub open spec fn term_tokens(style: Style, p: PredicateView) -> Seq<TokView> {
    match p {
        PredicateView::Not(c) => seq![keyword(style, "NOT"@, "not"@)] + compared_tokens(style, *c),
        _ => compared_tokens(style, p),
    }
}

/// A condition that can be written: terms joined from the left.
pub open spec fn is_chain(p: PredicateView) -> bool
    decreases p,
{
    match p {
        PredicateView::And(a, b) => is_chain(*a) && is_term(*b),
        PredicateView::Or(a, b) => is_chain(*a) && is_term(*b),
        _ => is_term(p),
    }
}

pub open spec fn chain_tokens(style: Style, p: PredicateView) -> Seq<TokView>
    decreases p,
{
    match p {
        PredicateView::And(a, b) => chain_tokens(style, *a) + seq![keyword(style, "AND"@, "and"@)]
            + term_tokens(style, *b),
        PredicateView::Or(a, b) => chain_tokens(style, *a) + seq![keyword(style, "OR"@, "or"@)]
            + term_tokens(style, *b),
        _ => term_tokens(style, p),
    }
}

pub open spec fn selection_tokens(style: Style, q: QueryView) -> Seq<TokView> {
    match q.projection {
        None => aggregates_tokens(style, q.aggregates),
        Some(columns) => if columns.len() == 0 {
            mark("*"@)
        } else {
            names_tokens(columns)
        },
    }
}

pub open spec fn where_tokens(style: Style, q: QueryView) -> Seq<TokView> {
    if q.predicate is True {
        Seq::empty()
    } else {
        seq![keyword(style, "WHERE"@, "where"@)] + chain_tokens(style, q.predicate)
    }
}

pub open spec fn group_tokens(style: Style, q: QueryView) -> Seq<TokView> {
    if q.group_by.len() == 0 {
        Seq::empty()
    } else {
        seq![keyword(style, "GROUP"@, "group"@), keyword(style, "BY"@, "by"@)] + names_tokens(q.group_by)
    }
}

pub open spec fn order_tokens(style: Style, q: QueryView) -> Seq<TokView> {
    if q.order_by.len() == 0 {
        Seq::empty()
    } else {
        seq![keyword(style, "ORDER"@, "order"@), keyword(style, "BY"@, "by"@)] + keys_tokens(
            style,
            q.order_by,
        )
    }
}

pub open spec fn limit_tokens(style: Style, q: QueryView) -> Seq<TokView> {
    match q.limit {
        None => Seq::empty(),
        Some(n) => seq![keyword(style, "LIMIT"@, "limit"@)] + mark(text::decimal_text(n as nat)),
    }
}

/// A query as tokens.
pub open spec fn query_tokens(style: Style, q: QueryView) -> Seq<TokView> {
    seq![keyword(style, "SELECT"@, "select"@)] + selection_tokens(style, q) + seq![
        keyword(style, "FROM"@, "from"@),
    ] + mark(q.dataset) + where_tokens(style, q) + group_tokens(style, q) + order_tokens(style, q)
        + limit_tokens(style, q)
}

/// A query as a text.
pub open spec fn query_text(style: Style, q: QueryView) -> Seq<char> {
    text_of(style, query_tokens(style, q))
}

/// An aggregate that can be written: its column is a name.
pub open spec fn aggregate_is_named(a: AggView) -> bool {
    match a {
        AggView::Count => true,
        AggView::Sum(c) => is_name(c),
        AggView::Min(c) => is_name(c),
        AggView::Max(c) => is_name(c),
        AggView::Avg(c) => is_name(c),
    }
}

/// A query that can be written: its names are names, its condition is a chain of terms, and it asks
/// either for aggregates or for columns of rows.
pub open spec fn can_be_written(q: QueryView) -> bool {
    &&& is_name(q.dataset)
    &&& forall|i: int| 0 <= i < q.group_by.len() ==> is_name(#[trigger] q.group_by[i])
    &&& forall|i: int| 0 <= i < q.order_by.len() ==> is_name((#[trigger] q.order_by[i]).column)
    &&& q.predicate is True || is_chain(q.predicate)
    &&& match q.projection {
        None => q.aggregates.len() > 0 && forall|i: int|
            0 <= i < q.aggregates.len() ==> aggregate_is_named(#[trigger] q.aggregates[i]),
        Some(columns) => q.aggregates.len() == 0 && q.group_by.len() == 0 && forall|i: int|
            0 <= i < columns.len() ==> is_name(#[trigger] columns[i]),
    }
}

/// Keywords may be written in either case.
pub proof fn lemma_either_case(w: Seq<char>, upper: Seq<char>)
    requires
        forall|i: int| 0 <= i < upper.len() ==> 'A' <= #[trigger] upper[i] <= 'Z',
    ensures
        decimal::same_word(w, upper) <==> says(w, upper),
{
    if w.len() == upper.len() {
        if says(w, upper) {
            assert forall|i: int| 0 <= i < w.len() implies #[trigger] decimal::folded(w[i])
                == decimal::folded(upper[i]) by {
                assert(w[i] == upper[i] || w[i] as u32 == upper[i] as u32 + 32);
            }
        }
        if decimal::same_word(w, upper) {
            assert forall|i: int| 0 <= i < w.len() implies #[trigger] w[i] == upper[i] || (
            'A' <= upper[i] <= 'Z' && w[i] as u32 == upper[i] as u32 + 32) by {
                assert(decimal::folded(w[i]) == decimal::folded(upper[i]));
                assert('A' <= upper[i] <= 'Z');
                conditions::lemma_codes(w[i], upper[i]);
            }
        }
    }
}

pub(crate) proof fn lemma_decimal_text(n: nat)
    ensures
        text::decimal_text(n).len() > 0,
        forall|i: int|
            0 <= i < text::decimal_text(n).len() ==> decimal::is_digit(#[trigger] text::decimal_text(n)[i]),
        decimal::digits_value(text::decimal_text(n)) == n,
    decreases n,
{
    let s = text::decimal_text(n);
    if n < 10 {
        assert(s.drop_last() =~= Seq::<char>::empty());
        assert(decimal::digits_value(s.drop_last()) == 0);
        assert(decimal::digit_value(s.last()) == n);
    } else {
        lemma_decimal_text(n / 10);
        assert(s.drop_last() =~= text::decimal_text(n / 10));
        assert(decimal::digit_value(s.last()) == n % 10);
    }
}

/// An integer in decimal is read as that integer.
pub proof fn lemma_integers(i: int)
    ensures
        decimal::integer_of(integer_word(i)) == Some(i),
        is_name(integer_word(i)),
        decimal::is_digit(integer_word(i).last()),
        i >= 0 ==> !decimal::is_minus(integer_word(i)),
{
    let w = integer_word(i);
    let n = (if i < 0 {
        -i
    } else {
        i
    }) as nat;
    let digits = text::decimal_text(n);
    lemma_decimal_text(n);
    assert(decimal::is_digit(digits[0]));
    assert(decimal::is_digit(digits.last()));
    assert(decimal::unsigned(w) =~= digits);
    decimal::lemma_run(digits, 0, digits.len());
    assert forall|k: int| 0 <= k < w.len() implies ordinary(#[trigger] w[k]) by {
        if i < 0 {
            if k > 0 {
                assert(w[k] == digits[k - 1]);
                assert(decimal::is_digit(digits[k - 1]));
            }
        } else {
            assert(decimal::is_digit(digits[k]));
        }
    }
}

spec fn same(style: Style, upper: Seq<char>, lower: Seq<char>, word: Seq<char>) -> bool {
    decimal::same_word(cased(style, upper, lower), word)
}

#[verifier::rlimit(50)]
proof fn lemma_keywords(style: Style)
    ensures
        same(style, "SELECT"@, "select"@, "SELECT"@),
        same(style, "FROM"@, "from"@, "FROM"@),
        same(style, "WHERE"@, "where"@, "WHERE"@),
        same(style, "GROUP"@, "group"@, "GROUP"@),
        same(style, "BY"@, "by"@, "BY"@),
        same(style, "ORDER"@, "order"@, "ORDER"@),
        same(style, "LIMIT"@, "limit"@, "LIMIT"@),
        same(style, "AND"@, "and"@, "AND"@),
        same(style, "OR"@, "or"@, "OR"@),
        same(style, "NOT"@, "not"@, "NOT"@),
        same(style, "DESC"@, "desc"@, "DESC"@),
        same(style, "ASC"@, "asc"@, "ASC"@),
        same(style, "COUNT"@, "count"@, "COUNT"@),
        same(style, "SUM"@, "sum"@, "SUM"@),
        same(style, "MIN"@, "min"@, "MIN"@),
        same(style, "MAX"@, "max"@, "MAX"@),
        same(style, "AVG"@, "avg"@, "AVG"@),
        same(style, "NULL"@, "null"@, "null"@),
        same(style, "TRUE"@, "true"@, "true"@),
        same(style, "FALSE"@, "false"@, "false"@),
        !same(style, "GROUP"@, "group"@, "WHERE"@),
        !same(style, "GROUP"@, "group"@, "AND"@),
        !same(style, "GROUP"@, "group"@, "OR"@),
        !same(style, "ORDER"@, "order"@, "WHERE"@),
        !same(style, "ORDER"@, "order"@, "AND"@),
        !same(style, "ORDER"@, "order"@, "OR"@),
        !same(style, "LIMIT"@, "limit"@, "WHERE"@),
        !same(style, "LIMIT"@, "limit"@, "AND"@),
        !same(style, "LIMIT"@, "limit"@, "OR"@),
        !same(style, "ORDER"@, "order"@, "GROUP"@),
        !same(style, "LIMIT"@, "limit"@, "GROUP"@),
        !same(style, "LIMIT"@, "limit"@, "ORDER"@),
        !same(style, "LIMIT"@, "limit"@, "DESC"@),
        !same(style, "LIMIT"@, "limit"@, "ASC"@),
        !same(style, "ASC"@, "asc"@, "DESC"@),
        !same(style, "OR"@, "or"@, "AND"@),
        !same(style, "SUM"@, "sum"@, "COUNT"@),
        !same(style, "MIN"@, "min"@, "COUNT"@),
        !same(style, "MAX"@, "max"@, "COUNT"@),
        !same(style, "AVG"@, "avg"@, "COUNT"@),
        !same(style, "MIN"@, "min"@, "SUM"@),
        !same(style, "MAX"@, "max"@, "SUM"@),
        !same(style, "AVG"@, "avg"@, "SUM"@),
        !same(style, "MAX"@, "max"@, "MIN"@),
        !same(style, "AVG"@, "avg"@, "MIN"@),
        !same(style, "AVG"@, "avg"@, "MAX"@),
        !same(style, "FALSE"@, "false"@, "true"@),
        !same(style, "NULL"@, "null"@, "true"@),
        !same(style, "NULL"@, "null"@, "false"@),
{
    reveal_strlit("SELECT");
    reveal_strlit("select");
    reveal_strlit("FROM");
    reveal_strlit("from");
    reveal_strlit("WHERE");
    reveal_strlit("where");
    reveal_strlit("GROUP");
    reveal_strlit("group");
    reveal_strlit("BY");
    reveal_strlit("by");
    reveal_strlit("ORDER");
    reveal_strlit("order");
    reveal_strlit("LIMIT");
    reveal_strlit("limit");
    reveal_strlit("AND");
    reveal_strlit("and");
    reveal_strlit("OR");
    reveal_strlit("or");
    reveal_strlit("NOT");
    reveal_strlit("not");
    reveal_strlit("DESC");
    reveal_strlit("desc");
    reveal_strlit("ASC");
    reveal_strlit("asc");
    reveal_strlit("COUNT");
    reveal_strlit("count");
    reveal_strlit("SUM");
    reveal_strlit("sum");
    reveal_strlit("MIN");
    reveal_strlit("min");
    reveal_strlit("MAX");
    reveal_strlit("max");
    reveal_strlit("AVG");
    reveal_strlit("avg");
    reveal_strlit("NULL");
    reveal_strlit("null");
    reveal_strlit("TRUE");
    reveal_strlit("true");
    reveal_strlit("FALSE");
    reveal_strlit("false");
    assert(decimal::folded(cased(style, "GROUP"@, "group"@)[0]) != decimal::folded("WHERE"@[0]));
    assert(decimal::folded(cased(style, "ORDER"@, "order"@)[0]) != decimal::folded("WHERE"@[0]));
    assert(decimal::folded(cased(style, "LIMIT"@, "limit"@)[0]) != decimal::folded("WHERE"@[0]));
    assert(decimal::folded(cased(style, "ORDER"@, "order"@)[0]) != decimal::folded("GROUP"@[0]));
    assert(decimal::folded(cased(style, "LIMIT"@, "limit"@)[0]) != decimal::folded("GROUP"@[0]));
    assert(decimal::folded(cased(style, "LIMIT"@, "limit"@)[0]) != decimal::folded("ORDER"@[0]));
    assert(decimal::folded(cased(style, "MIN"@, "min"@)[0]) != decimal::folded("SUM"@[0]));
    assert(decimal::folded(cased(style, "MAX"@, "max"@)[0]) != decimal::folded("SUM"@[0]));
    assert(decimal::folded(cased(style, "AVG"@, "avg"@)[0]) != decimal::folded("SUM"@[0]));
    assert(decimal::folded(cased(style, "MAX"@, "max"@)[1]) != decimal::folded("MIN"@[1]));
    assert(decimal::folded(cased(style, "AVG"@, "avg"@)[0]) != decimal::folded("MIN"@[0]));
    assert(decimal::folded(cased(style, "AVG"@, "avg"@)[0]) != decimal::folded("MAX"@[0]));
    assert(decimal::folded(cased(style, "NULL"@, "null"@)[0]) != decimal::folded("true"@[0]));
}

#[verifier::rlimit(50)]
proof fn lemma_keyword_names(style: Style)
    ensures
        is_name(cased(style, "SELECT"@, "select"@)),
        is_name(cased(style, "FROM"@, "from"@)),
        is_name(cased(style, "WHERE"@, "where"@)),
        is_name(cased(style, "GROUP"@, "group"@)),
        is_name(cased(style, "BY"@, "by"@)),
        is_name(cased(style, "ORDER"@, "order"@)),
        is_name(cased(style, "LIMIT"@, "limit"@)),
        is_name(cased(style, "AND"@, "and"@)),
        is_name(cased(style, "OR"@, "or"@)),
        is_name(cased(style, "NOT"@, "not"@)),
        is_name(cased(style, "DESC"@, "desc"@)),
        is_name(cased(style, "ASC"@, "asc"@)),
        is_name(cased(style, "COUNT"@, "count"@)),
        is_name(cased(style, "SUM"@, "sum"@)),
        is_name(cased(style, "MIN"@, "min"@)),
        is_name(cased(style, "MAX"@, "max"@)),
        is_name(cased(style, "AVG"@, "avg"@)),
        is_name(cased(style, "NULL"@, "null"@)),
        is_name(cased(style, "TRUE"@, "true"@)),
        is_name(cased(style, "FALSE"@, "false"@)),
{
    reveal_strlit("SELECT");
    reveal_strlit("select");
    reveal_strlit("FROM");
    reveal_strlit("from");
    reveal_strlit("WHERE");
    reveal_strlit("where");
    reveal_strlit("GROUP");
    reveal_strlit("group");
    reveal_strlit("BY");
    reveal_strlit("by");
    reveal_strlit("ORDER");
    reveal_strlit("order");
    reveal_strlit("LIMIT");
    reveal_strlit("limit");
    reveal_strlit("AND");
    reveal_strlit("and");
    reveal_strlit("OR");
    reveal_strlit("or");
    reveal_strlit("NOT");
    reveal_strlit("not");
    reveal_strlit("DESC");
    reveal_strlit("desc");
    reveal_strlit("ASC");
    reveal_strlit("asc");
    reveal_strlit("COUNT");
    reveal_strlit("count");
    reveal_strlit("SUM");
    reveal_strlit("sum");
    reveal_strlit("MIN");
    reveal_strlit("min");
    reveal_strlit("MAX");
    reveal_strlit("max");
    reveal_strlit("AVG");
    reveal_strlit("avg");
    reveal_strlit("NULL");
    reveal_strlit("null");
    reveal_strlit("TRUE");
    reveal_strlit("true");
    reveal_strlit("FALSE");
    reveal_strlit("false");
}

pub(crate) proof fn lemma_marks()
    ensures
        "="@ == seq!['='],
        "!="@ == seq!['!', '='],
        "<>"@ == seq!['<', '>'],
        "<"@ == seq!['<'],
        "<="@ == seq!['<', '='],
        ">"@ == seq!['>'],
        ">="@ == seq!['>', '='],
        ","@ == seq![','],
        "("@ == seq!['('],
        ")"@ == seq![')'],
        "*"@ == seq!['*'],
{
    reveal_strlit("=");
    reveal_strlit("!=");
    reveal_strlit("<>");
    reveal_strlit("<");
    reveal_strlit("<=");
    reveal_strlit(">");
    reveal_strlit(">=");
    reveal_strlit(",");
    reveal_strlit("(");
    reveal_strlit(")");
    reveal_strlit("*");
    assert("="@ =~= seq!['=']);
    assert("!="@ =~= seq!['!', '=']);
    assert("<>"@ =~= seq!['<', '>']);
    assert("<"@ =~= seq!['<']);
    assert("<="@ =~= seq!['<', '=']);
    assert(">"@ =~= seq!['>']);
    assert(">="@ =~= seq!['>', '=']);
    assert(","@ =~= seq![',']);
    assert("("@ =~= seq!['(']);
    assert(")"@ =~= seq![')']);
    assert("*"@ =~= seq!['*']);
}

proof fn lemma_name(w: Seq<char>)
    requires
        is_name(w),
    ensures
        !is_operator(w),
{
    lemma_marks();
    assert(ordinary(w[0]));
    if w.len() > 1 {
        assert(ordinary(w[1]));
    }
}

/// The tokens `part` stand at a place.
spec fn at(toks: Seq<TokView>, pos: int, part: Seq<TokView>) -> bool {
    &&& 0 <= pos
    &&& pos + part.len() <= toks.len()
    &&& forall|i: int| 0 <= i < part.len() ==> toks[pos + i] == #[trigger] part[i]
}

proof fn lemma_split(toks: Seq<TokView>, pos: int, a: Seq<TokView>, b: Seq<TokView>)
    requires
        at(toks, pos, a + b),
    ensures
        at(toks, pos, a),
        at(toks, pos + a.len(), b),
{
    assert forall|i: int| 0 <= i < a.len() implies toks[pos + i] == #[trigger] a[i] by {
        assert((a + b)[i] == a[i]);
    }
    assert forall|i: int| 0 <= i < b.len() implies toks[pos + a.len() + i] == #[trigger] b[i] by {
        assert((a + b)[a.len() + i] == b[i]);
    }
}

proof fn lemma_aggregate(style: Style, a: AggView, toks: Seq<TokView>, pos: int)
    requires
        at(toks, pos, aggregate_tokens(style, a)),
        aggregate_is_named(a),
    ensures
        aggregate_tokens(style, a).len() == 4,
        agg_at(toks, pos) == Ok::<(AggView, int), SqlErrorView>((a, pos + 4)),
        is_exactly(toks, pos + 1, "("@),
        !is_exactly(toks, pos, "*"@),
{
    let part = aggregate_tokens(style, a);
    lemma_keywords(style);
    lemma_keyword_names(style);
    lemma_marks();
    assert(toks[pos + 0] == part[0]);
    assert(toks[pos + 1] == part[1]);
    assert(toks[pos + 2] == part[2]);
    assert(toks[pos + 3] == part[3]);
    lemma_name(part[0]->Word_0);
    match a {
        AggView::Count => {},
        AggView::Sum(c) => lemma_name(c),
        AggView::Min(c) => lemma_name(c),
        AggView::Max(c) => lemma_name(c),
        AggView::Avg(c) => lemma_name(c),
    }
}

#[verifier::rlimit(30)]
proof fn lemma_aggregates(
    style: Style,
    before: Seq<AggView>,
    aggs: Seq<AggView>,
    toks: Seq<TokView>,
    pos: int,
)
    requires
        aggs.len() > 0,
        forall|i: int| 0 <= i < aggs.len() ==> aggregate_is_named(#[trigger] aggs[i]),
        at(toks, pos, aggregates_tokens(style, aggs)),
        !is_exactly(toks, pos + aggregates_tokens(style, aggs).len(), ","@),
    ensures
        aggs_at(before, toks, pos) == Ok::<(Seq<AggView>, int), SqlErrorView>(
            (before + aggs, pos + aggregates_tokens(style, aggs).len()),
        ),
        is_exactly(toks, pos + 1, "("@),
        !is_exactly(toks, pos, "*"@),
    decreases aggs.len(),
{
    let first = aggregate_tokens(style, aggs[0]);
    assert(aggregate_is_named(aggs[0]));
    if aggs.len() == 1 {
        lemma_aggregate(style, aggs[0], toks, pos);
        assert(before.push(aggs[0]) =~= before + aggs);
    } else {
        let rest = aggs.skip(1);
        let more = aggregates_tokens(style, rest);
        lemma_split(toks, pos, first + mark(","@), more);
        lemma_split(toks, pos, first, mark(","@));
        lemma_aggregate(style, aggs[0], toks, pos);
        assert(toks[pos + 4 + 0] == mark(","@)[0]);
        assert forall|i: int| 0 <= i < rest.len() implies aggregate_is_named(#[trigger] rest[i]) by {
            assert(rest[i] == aggs[i + 1]);
        }
        assert(pos + 5 + more.len() == pos + aggregates_tokens(style, aggs).len());
        lemma_aggregates(style, before.push(aggs[0]), rest, toks, pos + 5);
        assert(before.push(aggs[0]) + rest =~= before + aggs);
    }
}

proof fn lemma_names(
    before: Seq<Seq<char>>,
    names: Seq<Seq<char>>,
    toks: Seq<TokView>,
    pos: int,
    missing: SqlErrorView,
)
    requires
        names.len() > 0,
        forall|i: int| 0 <= i < names.len() ==> is_name(#[trigger] names[i]),
        at(toks, pos, names_tokens(names)),
        !is_exactly(toks, pos + names_tokens(names).len(), ","@),
    ensures
        names_at(before, toks, pos, missing) == Ok::<(Seq<Seq<char>>, int), SqlErrorView>(
            (before + names, pos + names_tokens(names).len()),
        ),
        names.len() == 1 ==> names_tokens(names).len() == 1,
        names.len() > 1 ==> is_exactly(toks, pos + 1, ","@),
        token_at(toks, pos) == Some(TokView::Word(names[0])),
    decreases names.len(),
{
    assert(is_name(names[0]));
    lemma_name(names[0]);
    if names.len() == 1 {
        assert(toks[pos + 0] == mark(names[0])[0]);
        assert(before.push(names[0]) =~= before + names);
    } else {
        let rest = names.skip(1);
        let more = names_tokens(rest);
        lemma_split(toks, pos, mark(names[0]) + mark(","@), more);
        lemma_split(toks, pos, mark(names[0]), mark(","@));
        assert(toks[pos + 0] == mark(names[0])[0]);
        assert(toks[pos + 1 + 0] == mark(","@)[0]);
        assert forall|i: int| 0 <= i < rest.len() implies is_name(#[trigger] rest[i]) by {
            assert(rest[i] == names[i + 1]);
        }
        assert(pos + 2 + more.len() == pos + names_tokens(names).len());
        lemma_names(before.push(names[0]), rest, toks, pos + 2, missing);
        assert(before.push(names[0]) + rest =~= before + names);
    }
}

#[verifier::rlimit(30)]
proof fn lemma_sort_keys(
    style: Style,
    before: Seq<OrderKeyView>,
    keys: Seq<OrderKeyView>,
    toks: Seq<TokView>,
    pos: int,
)
    requires
        keys.len() > 0,
        forall|i: int| 0 <= i < keys.len() ==> is_name((#[trigger] keys[i]).column),
        at(toks, pos, keys_tokens(style, keys)),
        !is_exactly(toks, pos + keys_tokens(style, keys).len(), ","@),
        !is_kw(toks, pos + keys_tokens(style, keys).len(), "DESC"@),
        !is_kw(toks, pos + keys_tokens(style, keys).len(), "ASC"@),
    ensures
        order_keys_at(before, toks, pos) == Ok::<(Seq<OrderKeyView>, int), SqlErrorView>(
            (before + keys, pos + keys_tokens(style, keys).len()),
        ),
    decreases keys.len(),
{
    lemma_keywords(style);
    lemma_marks();
    reveal_strlit("DESC");
    reveal_strlit("ASC");
    let key = keys[0];
    assert(is_name(key.column));
    lemma_name(key.column);
    let first = key_tokens(style, key);
    let n = first.len() as int;
    if keys.len() == 1 {
        assert(toks[pos + 0] == first[0]);
        if n == 2 {
            assert(toks[pos + 1] == first[1]);
        }
        assert(before.push(key) =~= before + keys);
    } else {
        let rest = keys.skip(1);
        let more = keys_tokens(style, rest);
        lemma_split(toks, pos, first + mark(","@), more);
        lemma_split(toks, pos, first, mark(","@));
        assert(toks[pos + 0] == first[0]);
        if n == 2 {
            assert(toks[pos + 1] == first[1]);
        }
        assert(toks[pos + n + 0] == mark(","@)[0]);
        assert forall|i: int| 0 <= i < rest.len() implies is_name((#[trigger] rest[i]).column) by {
            assert(rest[i] == keys[i + 1]);
        }
        assert(pos + n + 1 + more.len() == pos + keys_tokens(style, keys).len());
        lemma_sort_keys(style, before.push(key), rest, toks, pos + n + 1);
        assert(before.push(key) + rest =~= before + keys);
    }
}

proof fn lemma_literal(style: Style, v: JsonView)
    requires
        has_literal(v),
    ensures
        can_stand(literal_token(style, v)),
        match literal_token(style, v) {
            TokView::Str(s) => v == JsonView::String(s),
            TokView::Word(w) => !is_operator(w) && literal(w) == v,
        },
{
    lemma_keywords(style);
    lemma_keyword_names(style);
    match v {
        JsonView::Number(Num::Int(i)) => {
            let w = integer_word(i as int);
            lemma_integers(i as int);
            lemma_name(w);
            reveal_strlit("true");
            reveal_strlit("false");
            reveal_strlit("null");
            let last = w.len() - 1;
            assert(decimal::is_digit(w[last]));
            assert(decimal::folded(w[last]) <= 57);
            if w.len() == 4 {
                assert(decimal::folded("true"@[3]) > 57);
                assert(decimal::folded("null"@[3]) > 57);
            } else if w.len() == 5 {
                assert(decimal::folded("false"@[4]) > 57);
            }
            assert(!decimal::same_word(w, "true"@));
            assert(!decimal::same_word(w, "false"@));
            assert(!decimal::same_word(w, "null"@));
        },
        JsonView::Null => lemma_name(cased(style, "NULL"@, "null"@)),
        JsonView::Bool(true) => lemma_name(cased(style, "TRUE"@, "true"@)),
        JsonView::Bool(false) => lemma_name(cased(style, "FALSE"@, "false"@)),
        _ => {},
    }
}

proof fn lemma_comparison(style: Style, p: PredicateView, toks: Seq<TokView>, pos: int)
    requires
        is_compared(p),
        at(toks, pos, compared_tokens(style, p)),
    ensures
        compared_tokens(style, p).len() == 3,
        comparison_at(toks, pos) == Ok::<(PredicateView, int), SqlErrorView>((p, pos + 3)),
        p matches PredicateView::Cmp { field, op, value } && token_at(toks, pos) == Some(
            TokView::Word(field),
        ),
{
    let part = compared_tokens(style, p);
    if let PredicateView::Cmp { field, op, value } = p {
        lemma_marks();
        lemma_name(field);
        lemma_literal(style, value);
        assert(toks[pos + 0] == part[0]);
        assert(toks[pos + 1] == part[1]);
        assert(toks[pos + 2] == part[2]);
        assert(operator(operator_word(style, op)) == Some(op)) by {
            assert("<>"@[0] != "="@[0]);
            assert("<>"@.len() == 2 && "!="@.len() == 2 && "<="@.len() == 2 && ">="@.len() == 2);
            assert("!="@[0] == '!' && "<="@[0] == '<' && ">="@[0] == '>' && "<>"@[0] == '<');
            assert("<="@[1] == '=' && "<>"@[1] == '>');
            assert("<"@[0] == '<' && ">"@[0] == '>' && "="@[0] == '=');
            assert("<"@.len() == 1 && ">"@.len() == 1 && "="@.len() == 1);
        }
    }
}

proof fn lemma_term(style: Style, p: PredicateView, toks: Seq<TokView>, pos: int)
    requires
        is_term(p),
        at(toks, pos, term_tokens(style, p)),
    ensures
        term_tokens(style, p).len() > 0,
        term_at(toks, pos) == Ok::<(PredicateView, int), SqlErrorView>(
            (p, pos + term_tokens(style, p).len()),
        ),
{
    lemma_keywords(style);
    if let PredicateView::Not(c) = p {
        let not = seq![keyword(style, "NOT"@, "not"@)];
        lemma_split(toks, pos, not, compared_tokens(style, *c));
        assert(toks[pos + 0] == not[0]);
        lemma_comparison(style, *c, toks, pos + 1);
    } else {
        lemma_comparison(style, p, toks, pos);
        if let PredicateView::Cmp { field, op, value } = p {
            reveal_strlit("NOT");
            lemma_either_case(field, "NOT"@);
        }
    }
}

proof fn lemma_joiners(style: Style)
    ensures
        same(style, "AND"@, "and"@, "AND"@),
        same(style, "OR"@, "or"@, "OR"@),
        !same(style, "OR"@, "or"@, "AND"@),
{
    lemma_keywords(style);
}

proof fn lemma_step(
    style: Style,
    left: PredicateView,
    and: bool,
    right: PredicateView,
    toks: Seq<TokView>,
    pos: int,
)
    requires
        is_term(right),
        0 <= pos < toks.len(),
        toks[pos] == (if and {
            keyword(style, "AND"@, "and"@)
        } else {
            keyword(style, "OR"@, "or"@)
        }),
        at(toks, pos + 1, term_tokens(style, right)),
    ensures
        condition_at(left, toks, pos) == condition_at(
            if and {
                PredicateView::And(Box::new(left), Box::new(right))
            } else {
                PredicateView::Or(Box::new(left), Box::new(right))
            },
            toks,
            pos + 1 + term_tokens(style, right).len(),
        ),
{
    lemma_joiners(style);
    lemma_term(style, right, toks, pos + 1);
    assert(is_kw(toks, pos, "AND"@) == and);
    assert(!and ==> is_kw(toks, pos, "OR"@));
}

/// The condition at a place.
#[verifier::opaque]
spec fn chain_at(toks: Seq<TokView>, pos: int) -> Result<(PredicateView, int), SqlErrorView> {
    match term_at(toks, pos) {
        Ok((p, end)) => condition_at(p, toks, end),
        Err(e) => Err(e),
    }
}

proof fn lemma_joined(
    style: Style,
    a: PredicateView,
    and: bool,
    b: PredicateView,
    toks: Seq<TokView>,
    pos: int,
)
    requires
        is_term(b),
        at(
            toks,
            pos,
            chain_tokens(style, a) + seq![
                if and {
                    keyword(style, "AND"@, "and"@)
                } else {
                    keyword(style, "OR"@, "or"@)
                },
            ] + term_tokens(style, b),
        ),
    ensures
        at(toks, pos, chain_tokens(style, a)),
        condition_at(a, toks, pos + chain_tokens(style, a).len()) == condition_at(
            if and {
                PredicateView::And(Box::new(a), Box::new(b))
            } else {
                PredicateView::Or(Box::new(a), Box::new(b))
            },
            toks,
            pos + chain_tokens(style, a).len() + 1 + term_tokens(style, b).len(),
        ),
{
    let left = chain_tokens(style, a);
    let joiner = seq![
        if and {
            keyword(style, "AND"@, "and"@)
        } else {
            keyword(style, "OR"@, "or"@)
        },
    ];
    let right = term_tokens(style, b);
    lemma_split(toks, pos, left + joiner, right);
    lemma_split(toks, pos, left, joiner);
    let k = pos + left.len();
    assert(toks[k + 0] == joiner[0]);
    lemma_step(style, a, and, b, toks, k);
}

proof fn lemma_chain(style: Style, p: PredicateView, toks: Seq<TokView>, pos: int)
    requires
        is_chain(p),
        at(toks, pos, chain_tokens(style, p)),
    ensures
        chain_at(toks, pos) == condition_at(p, toks, pos + chain_tokens(style, p).len()),
    decreases p,
{
    match p {
        PredicateView::And(a, b) => {
            lemma_joined(style, *a, true, *b, toks, pos);
            lemma_chain(style, *a, toks, pos);
        },
        PredicateView::Or(a, b) => {
            lemma_joined(style, *a, false, *b, toks, pos);
            lemma_chain(style, *a, toks, pos);
        },
        _ => {
            reveal(chain_at);
            lemma_term(style, p, toks, pos);
        },
    }
}

/// The token at a place is none of the words that go on with a condition, a list or a sort key.
spec fn stops(toks: Seq<TokView>, pos: int) -> bool {
    &&& !is_kw(toks, pos, "AND"@)
    &&& !is_kw(toks, pos, "OR"@)
    &&& !is_exactly(toks, pos, ","@)
}

/// What follows a clause: the first token of the next one, or nothing.
proof fn lemma_tail(style: Style, q: QueryView, toks: Seq<TokView>, pos: int)
    requires
        at(toks, pos, limit_tokens(style, q)),
        pos + limit_tokens(style, q).len() == toks.len(),
    ensures
        stops(toks, pos),
        !is_kw(toks, pos, "WHERE"@),
        !is_kw(toks, pos, "GROUP"@),
        !is_kw(toks, pos, "ORDER"@),
        !is_kw(toks, pos, "DESC"@),
        !is_kw(toks, pos, "ASC"@),
        limit_at(toks, pos) == Ok::<(Option<usize>, int), SqlErrorView>((q.limit, toks.len() as int)),
{
    let part = limit_tokens(style, q);
    if let Some(n) = q.limit {
        lemma_keywords(style);
        lemma_keyword_names(style);
        lemma_marks();
        lemma_name(cased(style, "LIMIT"@, "limit"@));
        assert(toks[pos + 0] == part[0]);
        assert(toks[pos + 1] == part[1]);
        let w = text::decimal_text(n as nat);
        lemma_integers(n as int);
        assert(integer_word(n as int) == w);
        assert(row_count(w) == Some(n));
    }
}

proof fn lemma_order_tail(style: Style, q: QueryView, toks: Seq<TokView>, pos: int)
    requires
        can_be_written(q),
        at(toks, pos, order_tokens(style, q) + limit_tokens(style, q)),
        pos + order_tokens(style, q).len() + limit_tokens(style, q).len() == toks.len(),
    ensures
        stops(toks, pos),
        !is_kw(toks, pos, "WHERE"@),
        !is_kw(toks, pos, "GROUP"@),
        order_at(toks, pos) == Ok::<(Seq<OrderKeyView>, int), SqlErrorView>(
            (q.order_by, pos + order_tokens(style, q).len()),
        ),
        limit_at(toks, pos + order_tokens(style, q).len()) == Ok::<(Option<usize>, int), SqlErrorView>(
            (q.limit, toks.len() as int),
        ),
{
    let part = order_tokens(style, q);
    let rest = limit_tokens(style, q);
    lemma_split(toks, pos, part, rest);
    lemma_tail(style, q, toks, pos + part.len());
    if q.order_by.len() == 0 {
        assert(q.order_by =~= Seq::empty());
    } else {
        lemma_keywords(style);
        lemma_keyword_names(style);
        lemma_name(cased(style, "ORDER"@, "order"@));
        let head = seq![keyword(style, "ORDER"@, "order"@), keyword(style, "BY"@, "by"@)];
        lemma_split(toks, pos, head, keys_tokens(style, q.order_by));
        assert(toks[pos + 0] == head[0]);
        assert(toks[pos + 1] == head[1]);
        lemma_sort_keys(style, Seq::empty(), q.order_by, toks, pos + 2);
        assert(Seq::<OrderKeyView>::empty() + q.order_by =~= q.order_by);
    }
}

spec fn after_group(style: Style, q: QueryView) -> Seq<TokView> {
    order_tokens(style, q) + limit_tokens(style, q)
}

proof fn lemma_group_tail(style: Style, q: QueryView, toks: Seq<TokView>, pos: int)
    requires
        can_be_written(q),
        at(toks, pos, group_tokens(style, q) + after_group(style, q)),
        pos + group_tokens(style, q).len() + after_group(style, q).len() == toks.len(),
    ensures
        stops(toks, pos),
        !is_kw(toks, pos, "WHERE"@),
        group_at(toks, pos) == Ok::<(Seq<Seq<char>>, int), SqlErrorView>(
            (q.group_by, pos + group_tokens(style, q).len()),
        ),
        order_at(toks, pos + group_tokens(style, q).len()) == Ok::<
            (Seq<OrderKeyView>, int),
            SqlErrorView,
        >((q.order_by, pos + group_tokens(style, q).len() + order_tokens(style, q).len())),
        limit_at(toks, pos + group_tokens(style, q).len() + order_tokens(style, q).len()) == Ok::<
            (Option<usize>, int),
            SqlErrorView,
        >((q.limit, toks.len() as int)),
{
    let part = group_tokens(style, q);
    let rest = after_group(style, q);
    lemma_split(toks, pos, part, rest);
    lemma_order_tail(style, q, toks, pos + part.len());
    if q.group_by.len() == 0 {
        assert(q.group_by =~= Seq::empty());
    } else {
        lemma_keywords(style);
        lemma_keyword_names(style);
        lemma_name(cased(style, "GROUP"@, "group"@));
        let head = seq![keyword(style, "GROUP"@, "group"@), keyword(style, "BY"@, "by"@)];
        lemma_split(toks, pos, head, names_tokens(q.group_by));
        assert(toks[pos + 0] == head[0]);
        assert(toks[pos + 1] == head[1]);
        lemma_names(Seq::empty(), q.group_by, toks, pos + 2, SqlErrorView::NoColumn("GROUP BY"@));
        assert(Seq::<Seq<char>>::empty() + q.group_by =~= q.group_by);
    }
}

spec fn after_where(style: Style, q: QueryView) -> Seq<TokView> {
    group_tokens(style, q) + after_group(style, q)
}

#[verifier::rlimit(30)]
proof fn lemma_clauses(style: Style, q: QueryView, b: QueryView, toks: Seq<TokView>, pos: int)
    requires
        can_be_written(q),
        at(toks, pos, where_tokens(style, q) + after_where(style, q)),
        pos + where_tokens(style, q).len() + after_where(style, q).len() == toks.len(),
        b.dataset == q.dataset,
        b.aggregates == q.aggregates,
        b.projection == q.projection,
    ensures
        clauses_at(b, toks, pos) == Ok::<(QueryView, int), SqlErrorView>((q, toks.len() as int)),
{
    let part = where_tokens(style, q);
    let rest = after_where(style, q);
    lemma_split(toks, pos, part, rest);
    lemma_group_tail(style, q, toks, pos + part.len());
    if q.predicate is True {
        assert(where_at(toks, pos) == Ok::<(PredicateView, int), SqlErrorView>((q.predicate, pos)));
    } else {
        lemma_where_word(style);
        let head = seq![keyword(style, "WHERE"@, "where"@)];
        lemma_split(toks, pos, head, chain_tokens(style, q.predicate));
        assert(toks[pos + 0] == head[0]);
        lemma_chain(style, q.predicate, toks, pos + 1);
        assert(where_at(toks, pos) == chain_at(toks, pos + 1)) by {
            reveal(chain_at);
        }
        assert(where_at(toks, pos) == Ok::<(PredicateView, int), SqlErrorView>(
            (q.predicate, pos + part.len()),
        ));
    }
}

proof fn lemma_where_word(style: Style)
    ensures
        same(style, "WHERE"@, "where"@, "WHERE"@),
{
    lemma_keywords(style);
}

#[verifier::rlimit(30)]
proof fn lemma_selection(style: Style, q: QueryView, toks: Seq<TokView>)
    requires
        can_be_written(q),
        at(toks, 1, selection_tokens(style, q)),
        1 + selection_tokens(style, q).len() < toks.len(),
        toks[1 + selection_tokens(style, q).len() as int] == keyword(style, "FROM"@, "from"@),
    ensures
        selection_at(toks, 1) is Ok,
        selection_at(toks, 1)->Ok_0.1 == 1 + selection_tokens(style, q).len(),
        bare(q.dataset, selection_at(toks, 1)->Ok_0.0).aggregates == q.aggregates,
        bare(q.dataset, selection_at(toks, 1)->Ok_0.0).projection == q.projection,
        bare(q.dataset, selection_at(toks, 1)->Ok_0.0).dataset == q.dataset,
{
    let part = selection_tokens(style, q);
    lemma_keyword_names(style);
    lemma_name(cased(style, "FROM"@, "from"@));
    lemma_marks();
    match q.projection {
        None => {
            let none = Seq::<AggView>::empty();
            lemma_aggregates(style, none, q.aggregates, toks, 1);
            assert(Seq::<AggView>::empty() + q.aggregates =~= q.aggregates);
        },
        Some(columns) => {
            assert(q.aggregates =~= Seq::empty());
            if columns.len() == 0 {
                assert(toks[1 + 0int] == part[0]);
                assert(columns =~= Seq::empty());
            } else {
                lemma_names(Seq::empty(), columns, toks, 1, SqlErrorView::NoSelection);
                assert(Seq::<Seq<char>>::empty() + columns =~= columns);
                assert(is_name(columns[0]));
                lemma_name(columns[0]);
                assert(","@[0] != "("@[0]);
                assert(!is_exactly(toks, 1, "*"@));
                assert(!is_exactly(toks, 2, "("@));
            }
        },
    }
}

proof fn lemma_stand(a: Seq<TokView>, b: Seq<TokView>)
    requires
        forall|i: int| 0 <= i < a.len() ==> can_stand(#[trigger] a[i]),
        forall|i: int| 0 <= i < b.len() ==> can_stand(#[trigger] b[i]),
    ensures
        forall|i: int| 0 <= i < (a + b).len() ==> can_stand(#[trigger] (a + b)[i]),
{
    assert forall|i: int| 0 <= i < (a + b).len() implies can_stand(#[trigger] (a + b)[i]) by {
        if i < a.len() {
            assert((a + b)[i] == a[i]);
        } else {
            assert((a + b)[i] == b[i - a.len()]);
        }
    }
}

/// All tokens can stand in a text.
spec fn all_stand(toks: Seq<TokView>) -> bool {
    forall|i: int| 0 <= i < toks.len() ==> can_stand(#[trigger] toks[i])
}

proof fn lemma_aggregates_stand(style: Style, aggs: Seq<AggView>)
    requires
        forall|i: int| 0 <= i < aggs.len() ==> aggregate_is_named(#[trigger] aggs[i]),
    ensures
        all_stand(aggregates_tokens(style, aggs)),
    decreases aggs.len(),
{
    if aggs.len() > 0 {
        lemma_marks();
        lemma_keyword_names(style);
        assert(aggregate_is_named(aggs[0]));
        let first = aggregate_tokens(style, aggs[0]);
        assert(all_stand(first));
        if aggs.len() > 1 {
            let rest = aggs.skip(1);
            assert forall|i: int| 0 <= i < rest.len() implies aggregate_is_named(#[trigger] rest[i]) by {
                assert(rest[i] == aggs[i + 1]);
            }
            lemma_aggregates_stand(style, rest);
            lemma_stand(first, mark(","@));
            lemma_stand(first + mark(","@), aggregates_tokens(style, rest));
        }
    }
}

proof fn lemma_names_stand(names: Seq<Seq<char>>)
    requires
        forall|i: int| 0 <= i < names.len() ==> is_name(#[trigger] names[i]),
    ensures
        all_stand(names_tokens(names)),
    decreases names.len(),
{
    if names.len() > 0 {
        lemma_marks();
        assert(is_name(names[0]));
        if names.len() > 1 {
            let rest = names.skip(1);
            assert forall|i: int| 0 <= i < rest.len() implies is_name(#[trigger] rest[i]) by {
                assert(rest[i] == names[i + 1]);
            }
            lemma_names_stand(rest);
            lemma_stand(mark(names[0]), mark(","@));
            lemma_stand(mark(names[0]) + mark(","@), names_tokens(rest));
        }
    }
}

proof fn lemma_keys_stand(style: Style, keys: Seq<OrderKeyView>)
    requires
        forall|i: int| 0 <= i < keys.len() ==> is_name((#[trigger] keys[i]).column),
    ensures
        all_stand(keys_tokens(style, keys)),
    decreases keys.len(),
{
    if keys.len() > 0 {
        lemma_marks();
        lemma_keyword_names(style);
        assert(is_name(keys[0].column));
        let first = key_tokens(style, keys[0]);
        assert(all_stand(first));
        if keys.len() > 1 {
            let rest = keys.skip(1);
            assert forall|i: int| 0 <= i < rest.len() implies is_name((#[trigger] rest[i]).column) by {
                assert(rest[i] == keys[i + 1]);
            }
            lemma_keys_stand(style, rest);
            lemma_stand(first, mark(","@));
            lemma_stand(first + mark(","@), keys_tokens(style, rest));
        }
    }
}

proof fn lemma_term_stands(style: Style, p: PredicateView)
    requires
        is_term(p),
    ensures
        all_stand(term_tokens(style, p)),
{
    lemma_marks();
    lemma_keyword_names(style);
    let c = match p {
        PredicateView::Not(c) => *c,
        _ => p,
    };
    if let PredicateView::Cmp { field, op, value } = c {
        lemma_literal(style, value);
        assert(all_stand(compared_tokens(style, c)));
        lemma_stand(seq![keyword(style, "NOT"@, "not"@)], compared_tokens(style, c));
    }
}

proof fn lemma_chain_stands(style: Style, p: PredicateView)
    requires
        is_chain(p),
    ensures
        all_stand(chain_tokens(style, p)),
    decreases p,
{
    lemma_keyword_names(style);
    match p {
        PredicateView::And(a, b) => {
            let and = seq![keyword(style, "AND"@, "and"@)];
            lemma_chain_stands(style, *a);
            lemma_term_stands(style, *b);
            lemma_stand(chain_tokens(style, *a), and);
            lemma_stand(chain_tokens(style, *a) + and, term_tokens(style, *b));
        },
        PredicateView::Or(a, b) => {
            let or = seq![keyword(style, "OR"@, "or"@)];
            lemma_chain_stands(style, *a);
            lemma_term_stands(style, *b);
            lemma_stand(chain_tokens(style, *a), or);
            lemma_stand(chain_tokens(style, *a) + or, term_tokens(style, *b));
        },
        _ => lemma_term_stands(style, p),
    }
}

#[verifier::rlimit(30)]
proof fn lemma_parts_stand(style: Style, q: QueryView)
    requires
        can_be_written(q),
    ensures
        all_stand(selection_tokens(style, q)),
        all_stand(where_tokens(style, q)),
        all_stand(group_tokens(style, q)),
        all_stand(order_tokens(style, q)),
        all_stand(limit_tokens(style, q)),
{
    lemma_keyword_names(style);
    lemma_marks();
    match q.projection {
        None => lemma_aggregates_stand(style, q.aggregates),
        Some(columns) => lemma_names_stand(columns),
    }
    if !(q.predicate is True) {
        lemma_chain_stands(style, q.predicate);
        lemma_stand(seq![keyword(style, "WHERE"@, "where"@)], chain_tokens(style, q.predicate));
    }
    lemma_names_stand(q.group_by);
    lemma_stand(
        seq![keyword(style, "GROUP"@, "group"@), keyword(style, "BY"@, "by"@)],
        names_tokens(q.group_by),
    );
    lemma_keys_stand(style, q.order_by);
    lemma_stand(
        seq![keyword(style, "ORDER"@, "order"@), keyword(style, "BY"@, "by"@)],
        keys_tokens(style, q.order_by),
    );
    if let Some(n) = q.limit {
        lemma_integers(n as int);
        assert(integer_word(n as int) == text::decimal_text(n as nat));
    }
}

proof fn lemma_query_stands(style: Style, q: QueryView)
    requires
        can_be_written(q),
    ensures
        all_stand(query_tokens(style, q)),
{
    lemma_parts_stand(style, q);
    lemma_keyword_names(style);
    let select = seq![keyword(style, "SELECT"@, "select"@)];
    let from = seq![keyword(style, "FROM"@, "from"@)];
    let a = select + selection_tokens(style, q);
    lemma_stand(select, selection_tokens(style, q));
    lemma_stand(a, from);
    lemma_stand(a + from, mark(q.dataset));
    let b = a + from + mark(q.dataset);
    lemma_stand(b, where_tokens(style, q));
    lemma_stand(b + where_tokens(style, q), group_tokens(style, q));
    let c = b + where_tokens(style, q) + group_tokens(style, q);
    lemma_stand(c, order_tokens(style, q));
    lemma_stand(c + order_tokens(style, q), limit_tokens(style, q));
}

proof fn lemma_regrouped(
    a: Seq<TokView>,
    b: Seq<TokView>,
    c: Seq<TokView>,
    d: Seq<TokView>,
    e: Seq<TokView>,
    f: Seq<TokView>,
    g: Seq<TokView>,
    h: Seq<TokView>,
)
    ensures
        a + b + c + d + e + f + g + h == a + (b + (c + (d + (e + (f + (g + h)))))),
{
    assert(a + b + c + d + e + f + g + h =~= a + (b + (c + (d + (e + (f + (g + h)))))));
}

proof fn lemma_query_places(style: Style, q: QueryView) -> (p: int)
    ensures
        ({
            let toks = query_tokens(style, q);
            &&& p == 1 + selection_tokens(style, q).len()
            &&& toks.len() == p + 2 + where_tokens(style, q).len() + after_where(style, q).len()
            &&& toks[0] == keyword(style, "SELECT"@, "select"@)
            &&& at(toks, 1, selection_tokens(style, q))
            &&& toks[p] == keyword(style, "FROM"@, "from"@)
            &&& toks[p + 1] == TokView::Word(q.dataset)
            &&& at(toks, p + 2, where_tokens(style, q) + after_where(style, q))
        }),
{
    let toks = query_tokens(style, q);
    let select = seq![keyword(style, "SELECT"@, "select"@)];
    let selection = selection_tokens(style, q);
    let from = seq![keyword(style, "FROM"@, "from"@)];
    let clauses = where_tokens(style, q) + after_where(style, q);
    lemma_regrouped(
        select,
        selection,
        from,
        mark(q.dataset),
        where_tokens(style, q),
        group_tokens(style, q),
        order_tokens(style, q),
        limit_tokens(style, q),
    );
    assert(toks == select + (selection + (from + (mark(q.dataset) + clauses))));
    assert(at(toks, 0, toks));
    lemma_split(toks, 0, select, selection + (from + (mark(q.dataset) + clauses)));
    lemma_split(toks, 1, selection, from + (mark(q.dataset) + clauses));
    let p = 1 + selection.len() as int;
    lemma_split(toks, p, from, mark(q.dataset) + clauses);
    lemma_split(toks, p + 1, mark(q.dataset), clauses);
    assert(toks[0 + 0int] == select[0]);
    assert(toks[p + 0] == from[0]);
    assert(toks[p + 1 + 0] == mark(q.dataset)[0]);
    p
}

#[verifier::rlimit(40)]
proof fn lemma_query_tokens(style: Style, q: QueryView)
    requires
        can_be_written(q),
    ensures
        query_at(query_tokens(style, q)) == Ok::<(QueryView, int), SqlErrorView>(
            (q, query_tokens(style, q).len() as int),
        ),
{
    let toks = query_tokens(style, q);
    let p = lemma_query_places(style, q);
    lemma_head_words(style);
    lemma_name(q.dataset);
    lemma_selection(style, q, toks);
    let b = bare(q.dataset, selection_at(toks, 1)->Ok_0.0);
    lemma_clauses(style, q, b, toks, p + 2);
}

proof fn lemma_head_words(style: Style)
    ensures
        same(style, "SELECT"@, "select"@, "SELECT"@),
        same(style, "FROM"@, "from"@, "FROM"@),
{
    lemma_keywords(style);
}

/// A query that can be written is what its text is read as, in every style: the aggregates with their
/// functions and columns, the columns of rows, the dataset, the condition, the groups, the order with
/// its directions, and the limit.
#[verifier::rlimit(30)]
pub proof fn lemma_read_back(style: Style, q: QueryView)
    requires
        can_be_written(q),
    ensures
        parsed(query_text(style, q)) == Ok::<QueryView, SqlErrorView>(q),
{
    let toks = query_tokens(style, q);
    lemma_query_stands(style, q);
    lemma_tokens_of_text(style, Seq::empty(), toks);
    assert(Seq::<TokView>::empty() + toks =~= toks);
    lemma_query_tokens(style, q);
    assert(ordinary(q.dataset[0]));
    assert(ordinary(q.dataset.last()));
    lemma_white(q.dataset[0]);
    lemma_white(q.dataset.last());
}

/// The query for one aggregate of all rows of a dataset.
pub open spec fn asks_for(a: AggView, dataset: Seq<char>) -> QueryView {
    QueryView {
        dataset,
        aggregates: seq![a],
        predicate: PredicateView::True,
        group_by: Seq::empty(),
        order_by: Seq::empty(),
        limit: None,
        projection: None,
    }
}

/// `SELECT MIN(column)` is read as the aggregate that gives the least number in the column, and
/// `SELECT MAX(column)` as the one that gives the greatest.
pub proof fn lemma_least_and_greatest(
    style: Style,
    column: Seq<char>,
    dataset: Seq<char>,
    rows: Seq<RowView>,
    i: int,
)
    requires
        is_name(column),
        is_name(dataset),
        0 <= i < rows.len(),
        grouping::counts(rows[i], column),
    ensures
        ({
            let read = parsed(query_text(style, asks_for(AggView::Min(column), dataset)));
            &&& read is Ok
            &&& read->Ok_0.aggregates.len() == 1
            &&& algebra::state(read->Ok_0.aggregates[0], rows) matches Accum::Min(Some(x))
                && grouping::is_in(x, rows, column) && x.units() <= grouping::number_in(
                rows[i],
                column,
            )->0.units()
        }),
        ({
            let read = parsed(query_text(style, asks_for(AggView::Max(column), dataset)));
            &&& read is Ok
            &&& read->Ok_0.aggregates.len() == 1
            &&& algebra::state(read->Ok_0.aggregates[0], rows) matches Accum::Max(Some(x))
                && grouping::is_in(x, rows, column) && x.units() >= grouping::number_in(
                rows[i],
                column,
            )->0.units()
        }),
{
    lemma_read_back(style, asks_for(AggView::Min(column), dataset));
    lemma_read_back(style, asks_for(AggView::Max(column), dataset));
    grouping::lemma_minimum(rows, column, i);
    grouping::lemma_maximum(rows, column, i);
}

} // verus!
