//! What a text must be to be read as a query.

use crate::decimal;
use crate::json::{JsonView, Num};
use crate::query;
use crate::query::{AggView, CmpOp, OrderDir, OrderKeyView, PredicateView, QueryView};
use crate::running::finite_number;
use crate::sql::{
    agg_at, aggs_at, clauses_at, comparison_at, condition_at, group_at, is_exactly, is_kw,
    literal, name_at, names_at, order_at, order_keys_at, parsed, query_at, selection_at, term_at,
    token_at, tokens_from, where_at, SelectionView, SqlErrorView, TokView,
};
use crate::writing::{compares, lemma_either_case, lemma_marks, punctuates, says};
use vstd::prelude::*;
use vstd::string::*;

verus! {

/// The token at a place is the keyword, in whatever case.
pub open spec fn keyword_at(toks: Seq<TokView>, i: int, word: Seq<char>) -> bool {
    0 <= i < toks.len() && (toks[i] matches TokView::Word(w) && says(w, word))
}

/// The token at a place is the mark.
pub open spec fn mark_at(toks: Seq<TokView>, i: int, c: char) -> bool {
    0 <= i < toks.len() && toks[i] == TokView::Word(seq![c])
}

/// The token at a place is a word that is no operator and no mark.
pub open spec fn named_at(toks: Seq<TokView>, i: int, w: Seq<char>) -> bool {
    0 <= i < toks.len() && toks[i] == TokView::Word(w) && !compares(w) && !punctuates(w)
}

/// The token at a place is some such word.
pub open spec fn any_name_at(toks: Seq<TokView>, i: int) -> bool {
    exists|w: Seq<char>| #[trigger] named_at(toks, i, w)
}

/// An aggregate: the name of a function, and in brackets a column, for `COUNT` any or `*`.
pub open spec fn aggregate_said(toks: Seq<TokView>, i: int, a: AggView) -> bool {
    &&& mark_at(toks, i + 1, '(')
    &&& mark_at(toks, i + 3, ')')
    &&& match a {
        AggView::Count => keyword_at(toks, i, "COUNT"@) && (mark_at(toks, i + 2, '*') || any_name_at(
            toks,
            i + 2,
        )),
        AggView::Sum(c) => keyword_at(toks, i, "SUM"@) && named_at(toks, i + 2, c),
        AggView::Min(c) => keyword_at(toks, i, "MIN"@) && named_at(toks, i + 2, c),
        AggView::Max(c) => keyword_at(toks, i, "MAX"@) && named_at(toks, i + 2, c),
        AggView::Avg(c) => keyword_at(toks, i, "AVG"@) && named_at(toks, i + 2, c),
    }
}

/// Aggregates from one place to another, with commas between them.
pub open spec fn aggregates_said(toks: Seq<TokView>, i: int, end: int, aggs: Seq<AggView>) -> bool
    decreases aggs.len(),
{
    &&& aggs.len() > 0
    &&& aggregate_said(toks, i, aggs[0])
    &&& if aggs.len() == 1 {
        end == i + 4
    } else {
        mark_at(toks, i + 4, ',') && aggregates_said(toks, i + 5, end, aggs.skip(1))
    }
}

/// Names from one place to another, with commas between them.
pub open spec fn names_said(toks: Seq<TokView>, i: int, end: int, names: Seq<Seq<char>>) -> bool
    decreases names.len(),
{
    &&& names.len() > 0
    &&& named_at(toks, i, names[0])
    &&& if names.len() == 1 {
        end == i + 1
    } else {
        mark_at(toks, i + 1, ',') && names_said(toks, i + 2, end, names.skip(1))
    }
}

/// Columns to sort by, each with its direction, which is up where none is said.
pub open spec fn keys_said(toks: Seq<TokView>, i: int, end: int, keys: Seq<OrderKeyView>) -> bool
    decreases keys.len(),
{
    &&& keys.len() > 0
    &&& named_at(toks, i, keys[0].column)
    &&& keys[0].dir == OrderDir::Desc <==> keyword_at(toks, i + 1, "DESC"@)
    &&& {
        let next = if keyword_at(toks, i + 1, "DESC"@) || keyword_at(toks, i + 1, "ASC"@) {
            i + 2
        } else {
            i + 1
        };
        if keys.len() == 1 {
            end == next
        } else {
            mark_at(toks, next, ',') && keys_said(toks, next + 1, end, keys.skip(1))
        }
    }
}

pub open spec fn operator_said(w: Seq<char>, op: CmpOp) -> bool {
    match op {
        CmpOp::Eq => w == seq!['='],
        CmpOp::Ne => w == seq!['!', '='] || w == seq!['<', '>'],
        CmpOp::Lt => w == seq!['<'],
        CmpOp::Le => w == seq!['<', '='],
        CmpOp::Gt => w == seq!['>'],
        CmpOp::Ge => w == seq!['>', '='],
    }
}

/// What a word without quotes stands for in a condition: a boolean or null, an integer of 64 bits, another
/// number that is finite, and otherwise itself.
pub open spec fn word_value(w: Seq<char>) -> JsonView {
    if says(w, "TRUE"@) {
        JsonView::Bool(true)
    } else if says(w, "FALSE"@) {
        JsonView::Bool(false)
    } else if says(w, "NULL"@) {
        JsonView::Null
    } else {
        match decimal::integer_of(w) {
            Some(i) if i64::MIN <= i <= i64::MAX => JsonView::Number(Num::Int(i as i128)),
            _ => match query::float_value(JsonView::String(w)) {
                Some(f) if finite_number(f) => JsonView::Number(Num::Float(f)),
                _ => JsonView::String(w),
            },
        }
    }
}

/// A column, an operator and a literal.
pub open spec fn compared_said(toks: Seq<TokView>, i: int, p: PredicateView) -> bool {
    p matches PredicateView::Cmp { field, op, value } && named_at(toks, i, field) && i + 2 < toks.len() && (
    toks[i + 1] matches TokView::Word(o) && operator_said(o, op)) && (match toks[i + 2] {
        TokView::Str(s) => value == JsonView::String(s),
        TokView::Word(w) => named_at(toks, i + 2, w) && value == word_value(w),
    })
}

/// A comparison, or the word `NOT` and a comparison.
pub open spec fn term_said(toks: Seq<TokView>, i: int, end: int, p: PredicateView) -> bool {
    if keyword_at(toks, i, "NOT"@) {
        p matches PredicateView::Not(c) && compared_said(toks, i + 1, *c) && end == i + 4
    } else {
        compared_said(toks, i, p) && end == i + 3
    }
}

/// Terms joined by `AND` and `OR`, from the left.
pub open spec fn condition_said(toks: Seq<TokView>, i: int, end: int, p: PredicateView) -> bool
    decreases p,
{
    match p {
        PredicateView::And(a, b) => exists|k: int|
            condition_said(toks, i, k, *a) && #[trigger] keyword_at(toks, k, "AND"@) && term_said(
                toks,
                k + 1,
                end,
                *b,
            ),
        PredicateView::Or(a, b) => exists|k: int|
            condition_said(toks, i, k, *a) && #[trigger] keyword_at(toks, k, "OR"@) && term_said(
                toks,
                k + 1,
                end,
                *b,
            ),
        _ => term_said(toks, i, end, p),
    }
}

pub open spec fn selection_said(toks: Seq<TokView>, i: int, end: int, q: QueryView) -> bool {
    match q.projection {
        None => aggregates_said(toks, i, end, q.aggregates),
        Some(columns) => q.aggregates.len() == 0 && if columns.len() == 0 {
            mark_at(toks, i, '*') && end == i + 1
        } else {
            names_said(toks, i, end, columns)
        },
    }
}

pub open spec fn where_said(toks: Seq<TokView>, i: int, end: int, q: QueryView) -> bool {
    if keyword_at(toks, i, "WHERE"@) {
        condition_said(toks, i + 1, end, q.predicate)
    } else {
        q.predicate is True && end == i
    }
}

pub open spec fn group_said(toks: Seq<TokView>, i: int, end: int, q: QueryView) -> bool {
    if keyword_at(toks, i, "GROUP"@) {
        keyword_at(toks, i + 1, "BY"@) && names_said(toks, i + 2, end, q.group_by)
    } else {
        q.group_by.len() == 0 && end == i
    }
}

pub open spec fn order_said(toks: Seq<TokView>, i: int, end: int, q: QueryView) -> bool {
    if keyword_at(toks, i, "ORDER"@) {
        keyword_at(toks, i + 1, "BY"@) && keys_said(toks, i + 2, end, q.order_by)
    } else {
        q.order_by.len() == 0 && end == i
    }
}

/// The word `LIMIT` and a number without a minus sign.
pub open spec fn limit_said(toks: Seq<TokView>, i: int, end: int, q: QueryView) -> bool {
    if keyword_at(toks, i, "LIMIT"@) {
        end == i + 2 && i + 1 < toks.len() && (q.limit matches Some(n) && toks[i + 1] matches TokView::Word(w)
            && w.len() > 0 && w[0] != '-' && decimal::integer_of(w) == Some(n as int))
    } else {
        q.limit is None && end == i
    }
}

/// The clauses after the dataset, from place `i` to the end.
pub open spec fn clauses_said(toks: Seq<TokView>, i: int, a: int, b: int, c: int, q: QueryView) -> bool {
    &&& where_said(toks, i, a, q)
    &&& group_said(toks, a, b, q)
    &&& order_said(toks, b, c, q)
    &&& limit_said(toks, c, toks.len() as int, q)
}

/// The tokens say the query: what is selected from place 1 to place `p`, the dataset after it, and the
/// clauses, which begin at `a`, `b` and `c`.
pub open spec fn query_said(toks: Seq<TokView>, p: int, a: int, b: int, c: int, q: QueryView) -> bool {
    &&& keyword_at(toks, 0, "SELECT"@)
    &&& selection_said(toks, 1, p, q)
    &&& keyword_at(toks, p, "FROM"@)
    &&& named_at(toks, p + 1, q.dataset)
    &&& clauses_said(toks, p + 2, a, b, c, q)
}

proof fn lemma_keyword(toks: Seq<TokView>, i: int, word: Seq<char>)
    requires
        forall|k: int| 0 <= k < word.len() ==> 'A' <= #[trigger] word[k] <= 'Z',
    ensures
        is_kw(toks, i, word) <==> keyword_at(toks, i, word),
{
    if 0 <= i < toks.len() {
        if let TokView::Word(w) = toks[i] {
            lemma_either_case(w, word);
        }
    }
}

proof fn lemma_letters()
    ensures
        forall|k: int| 0 <= k < "SELECT"@.len() ==> 'A' <= #[trigger] "SELECT"@[k] <= 'Z',
        forall|k: int| 0 <= k < "FROM"@.len() ==> 'A' <= #[trigger] "FROM"@[k] <= 'Z',
        forall|k: int| 0 <= k < "WHERE"@.len() ==> 'A' <= #[trigger] "WHERE"@[k] <= 'Z',
        forall|k: int| 0 <= k < "GROUP"@.len() ==> 'A' <= #[trigger] "GROUP"@[k] <= 'Z',
        forall|k: int| 0 <= k < "BY"@.len() ==> 'A' <= #[trigger] "BY"@[k] <= 'Z',
        forall|k: int| 0 <= k < "ORDER"@.len() ==> 'A' <= #[trigger] "ORDER"@[k] <= 'Z',
        forall|k: int| 0 <= k < "LIMIT"@.len() ==> 'A' <= #[trigger] "LIMIT"@[k] <= 'Z',
        forall|k: int| 0 <= k < "AND"@.len() ==> 'A' <= #[trigger] "AND"@[k] <= 'Z',
        forall|k: int| 0 <= k < "OR"@.len() ==> 'A' <= #[trigger] "OR"@[k] <= 'Z',
        forall|k: int| 0 <= k < "NOT"@.len() ==> 'A' <= #[trigger] "NOT"@[k] <= 'Z',
        forall|k: int| 0 <= k < "DESC"@.len() ==> 'A' <= #[trigger] "DESC"@[k] <= 'Z',
        forall|k: int| 0 <= k < "ASC"@.len() ==> 'A' <= #[trigger] "ASC"@[k] <= 'Z',
        forall|k: int| 0 <= k < "COUNT"@.len() ==> 'A' <= #[trigger] "COUNT"@[k] <= 'Z',
        forall|k: int| 0 <= k < "SUM"@.len() ==> 'A' <= #[trigger] "SUM"@[k] <= 'Z',
        forall|k: int| 0 <= k < "MIN"@.len() ==> 'A' <= #[trigger] "MIN"@[k] <= 'Z',
        forall|k: int| 0 <= k < "MAX"@.len() ==> 'A' <= #[trigger] "MAX"@[k] <= 'Z',
        forall|k: int| 0 <= k < "AVG"@.len() ==> 'A' <= #[trigger] "AVG"@[k] <= 'Z',
{
    reveal_strlit("SELECT");
    reveal_strlit("FROM");
    reveal_strlit("WHERE");
    reveal_strlit("GROUP");
    reveal_strlit("BY");
    reveal_strlit("ORDER");
    reveal_strlit("LIMIT");
    reveal_strlit("AND");
    reveal_strlit("OR");
    reveal_strlit("NOT");
    reveal_strlit("DESC");
    reveal_strlit("ASC");
    reveal_strlit("COUNT");
    reveal_strlit("SUM");
    reveal_strlit("MIN");
    reveal_strlit("MAX");
    reveal_strlit("AVG");
}

proof fn lemma_named(toks: Seq<TokView>, i: int)
    ensures
        name_at(toks, i) matches Some(w) ==> named_at(toks, i, w),
{
    lemma_marks();
}

#[verifier::rlimit(30)]
proof fn lemma_read_aggregate(toks: Seq<TokView>, i: int)
    ensures
        agg_at(toks, i) matches Ok((a, end)) ==> aggregate_said(toks, i, a) && end == i + 4 && i >= 0,
{
    lemma_letters();
    lemma_marks();
    lemma_named(toks, i);
    lemma_named(toks, i + 2);
    lemma_keyword(toks, i, "COUNT"@);
    lemma_keyword(toks, i, "SUM"@);
    lemma_keyword(toks, i, "MIN"@);
    lemma_keyword(toks, i, "MAX"@);
    lemma_keyword(toks, i, "AVG"@);
    if let Some(c) = name_at(toks, i + 2) {
        assert(named_at(toks, i + 2, c));
    }
    if is_exactly(toks, i + 2, "*"@) {
        assert(mark_at(toks, i + 2, '*'));
    }
}

proof fn lemma_read_aggregates(before: Seq<AggView>, toks: Seq<TokView>, i: int)
    requires
        0 <= i,
    ensures
        aggs_at(before, toks, i) matches Ok((all, end)) ==> before.len() < all.len() && all.take(
            before.len() as int,
        ) == before && aggregates_said(toks, i, end, all.skip(before.len() as int)),
    decreases toks.len() - i,
{
    lemma_read_aggregate(toks, i);
    lemma_marks();
    if let Ok((all, end)) = aggs_at(before, toks, i) {
        let (a, p) = agg_at(toks, i)->Ok_0;
        let now = before.push(a);
        let rest = all.skip(before.len() as int);
        if is_exactly(toks, p, ","@) {
            lemma_read_aggregates(now, toks, p + 1);
            assert(all.take(now.len() as int)[before.len() as int] == a);
            assert(all.take(before.len() as int) =~= all.take(now.len() as int).take(before.len() as int));
            assert(now.take(before.len() as int) =~= before);
            assert(rest.skip(1) =~= all.skip(now.len() as int));
            assert(rest[0] == a);
        } else {
            assert(all.take(before.len() as int) =~= before);
            assert(rest =~= seq![a]);
        }
    }
}

proof fn lemma_read_names(before: Seq<Seq<char>>, toks: Seq<TokView>, i: int, missing: SqlErrorView)
    requires
        0 <= i,
    ensures
        names_at(before, toks, i, missing) matches Ok((all, end)) ==> before.len() < all.len() && all.take(
            before.len() as int,
        ) == before && names_said(toks, i, end, all.skip(before.len() as int)),
    decreases toks.len() - i,
{
    lemma_named(toks, i);
    lemma_marks();
    if let Ok((all, end)) = names_at(before, toks, i, missing) {
        let w = name_at(toks, i)->0;
        let now = before.push(w);
        let rest = all.skip(before.len() as int);
        if is_exactly(toks, i + 1, ","@) {
            lemma_read_names(now, toks, i + 2, missing);
            assert(all.take(now.len() as int)[before.len() as int] == w);
            assert(all.take(before.len() as int) =~= all.take(now.len() as int).take(before.len() as int));
            assert(now.take(before.len() as int) =~= before);
            assert(rest.skip(1) =~= all.skip(now.len() as int));
            assert(rest[0] == w);
        } else {
            assert(all.take(before.len() as int) =~= before);
            assert(rest =~= seq![w]);
        }
    }
}

proof fn lemma_read_keys(before: Seq<OrderKeyView>, toks: Seq<TokView>, i: int)
    requires
        0 <= i,
    ensures
        order_keys_at(before, toks, i) matches Ok((all, end)) ==> before.len() < all.len() && all.take(
            before.len() as int,
        ) == before && keys_said(toks, i, end, all.skip(before.len() as int)),
    decreases toks.len() - i,
{
    lemma_named(toks, i);
    lemma_marks();
    lemma_letters();
    lemma_keyword(toks, i + 1, "DESC"@);
    lemma_keyword(toks, i + 1, "ASC"@);
    if let Ok((all, end)) = order_keys_at(before, toks, i) {
        let desc = is_kw(toks, i + 1, "DESC"@);
        let dir = if desc {
            OrderDir::Desc
        } else {
            OrderDir::Asc
        };
        let p = if desc || is_kw(toks, i + 1, "ASC"@) {
            i + 2
        } else {
            i + 1
        };
        let key = OrderKeyView { column: name_at(toks, i)->0, dir };
        let now = before.push(key);
        let rest = all.skip(before.len() as int);
        if is_exactly(toks, p, ","@) {
            lemma_read_keys(now, toks, p + 1);
            assert(all.take(now.len() as int)[before.len() as int] == key);
            assert(all.take(before.len() as int) =~= all.take(now.len() as int).take(before.len() as int));
            assert(now.take(before.len() as int) =~= before);
            assert(rest.skip(1) =~= all.skip(now.len() as int));
            assert(rest[0] == key);
        } else {
            assert(all.take(before.len() as int) =~= before);
            assert(rest =~= seq![key]);
        }
    }
}

/// A word without quotes is read as what it stands for.
pub proof fn lemma_literals(w: Seq<char>)
    ensures
        literal(w) == word_value(w),
{
    reveal_strlit("true");
    reveal_strlit("false");
    reveal_strlit("null");
    reveal_strlit("TRUE");
    reveal_strlit("FALSE");
    reveal_strlit("NULL");
    lemma_either_case(w, "TRUE"@);
    lemma_either_case(w, "FALSE"@);
    lemma_either_case(w, "NULL"@);
    assert forall|i: int| 0 <= i < 4 implies decimal::folded("true"@[i]) == #[trigger] decimal::folded(
        "TRUE"@[i],
    ) by {}
    assert forall|i: int| 0 <= i < 5 implies decimal::folded("false"@[i]) == #[trigger] decimal::folded(
        "FALSE"@[i],
    ) by {}
    assert forall|i: int| 0 <= i < 4 implies decimal::folded("null"@[i]) == #[trigger] decimal::folded(
        "NULL"@[i],
    ) by {}
}

#[verifier::rlimit(30)]
proof fn lemma_read_comparison(toks: Seq<TokView>, i: int)
    ensures
        comparison_at(toks, i) matches Ok((p, end)) ==> compared_said(toks, i, p) && end == i + 3,
{
    lemma_named(toks, i);
    lemma_marks();
    lemma_named(toks, i + 2);
    if let Some(TokView::Word(w)) = token_at(toks, i + 2) {
        lemma_literals(w);
    }
}

proof fn lemma_read_term(toks: Seq<TokView>, i: int)
    ensures
        term_at(toks, i) matches Ok((p, end)) ==> term_said(toks, i, end, p) && (p is Cmp || p is Not) && end
            > i,
{
    lemma_letters();
    lemma_keyword(toks, i, "NOT"@);
    lemma_read_comparison(toks, i);
    lemma_read_comparison(toks, i + 1);
}

proof fn lemma_read_condition(left: PredicateView, toks: Seq<TokView>, start: int, i: int)
    requires
        0 <= i,
        condition_said(toks, start, i, left),
    ensures
        condition_at(left, toks, i) matches Ok((p, end)) ==> condition_said(toks, start, end, p),
    decreases toks.len() - i,
{
    lemma_letters();
    lemma_keyword(toks, i, "AND"@);
    lemma_keyword(toks, i, "OR"@);
    lemma_read_term(toks, i + 1);
    let and = is_kw(toks, i, "AND"@);
    if and || is_kw(toks, i, "OR"@) {
        if let Ok((right, p)) = term_at(toks, i + 1) {
            let joined = if and {
                PredicateView::And(Box::new(left), Box::new(right))
            } else {
                PredicateView::Or(Box::new(left), Box::new(right))
            };
            assert(condition_said(toks, start, p, joined));
            lemma_read_condition(joined, toks, start, p);
        }
    }
}

#[verifier::rlimit(30)]
proof fn lemma_read_clauses(q: QueryView, toks: Seq<TokView>, i: int) -> (r: (int, int, int))
    requires
        0 <= i <= toks.len(),
        clauses_at(q, toks, i) is Ok,
        clauses_at(q, toks, i)->Ok_0.1 >= toks.len(),
    ensures
        clauses_said(toks, i, r.0, r.1, r.2, clauses_at(q, toks, i)->Ok_0.0),
{
    lemma_letters();
    let out = clauses_at(q, toks, i)->Ok_0.0;
    let (p, a) = where_at(toks, i)->Ok_0;
    lemma_keyword(toks, i, "WHERE"@);
    lemma_read_term(toks, i + 1);
    if is_kw(toks, i, "WHERE"@) {
        let (t, e) = term_at(toks, i + 1)->Ok_0;
        assert(condition_said(toks, i + 1, e, t));
        lemma_read_condition(t, toks, i + 1, e);
    }
    assert(where_said(toks, i, a, out));
    lemma_where_end(toks, i);
    let (g, b) = group_at(toks, a)->Ok_0;
    lemma_keyword(toks, a, "GROUP"@);
    lemma_keyword(toks, a + 1, "BY"@);
    let none = Seq::<Seq<char>>::empty();
    lemma_read_names(none, toks, a + 2, SqlErrorView::NoColumn("GROUP BY"@));
    assert(g.skip(0) =~= g);
    assert(group_said(toks, a, b, out));
    lemma_group_end(toks, a);
    let (o, c) = order_at(toks, b)->Ok_0;
    lemma_keyword(toks, b, "ORDER"@);
    lemma_keyword(toks, b + 1, "BY"@);
    lemma_read_keys(Seq::empty(), toks, b + 2);
    assert(o.skip(0) =~= o);
    assert(order_said(toks, b, c, out));
    lemma_order_end(toks, b);
    lemma_keyword(toks, c, "LIMIT"@);
    assert(limit_said(toks, c, toks.len() as int, out));
    (a, b, c)
}

proof fn lemma_condition_end(left: PredicateView, toks: Seq<TokView>, i: int)
    requires
        0 <= i,
    ensures
        condition_at(left, toks, i) matches Ok((p, end)) ==> i <= end,
        0 <= i <= toks.len() ==> (condition_at(left, toks, i) matches Ok((p, end)) ==> end <= toks.len()),
    decreases toks.len() - i,
{
    lemma_read_term(toks, i + 1);
    let and = is_kw(toks, i, "AND"@);
    if and || is_kw(toks, i, "OR"@) {
        if let Ok((right, p)) = term_at(toks, i + 1) {
            lemma_condition_end(PredicateView::And(Box::new(left), Box::new(right)), toks, p);
            lemma_condition_end(PredicateView::Or(Box::new(left), Box::new(right)), toks, p);
        }
    }
}

proof fn lemma_where_end(toks: Seq<TokView>, i: int)
    requires
        0 <= i,
    ensures
        where_at(toks, i) matches Ok((p, end)) ==> i <= end && (i <= toks.len() ==> end <= toks.len()),
{
    lemma_read_term(toks, i + 1);
    if let Ok((t, e)) = term_at(toks, i + 1) {
        lemma_condition_end(t, toks, e);
    }
}

proof fn lemma_names_end(before: Seq<Seq<char>>, toks: Seq<TokView>, i: int, missing: SqlErrorView)
    requires
        0 <= i,
    ensures
        names_at(before, toks, i, missing) matches Ok((all, end)) ==> i < end <= toks.len(),
    decreases toks.len() - i,
{
    if let Some(w) = name_at(toks, i) {
        if is_exactly(toks, i + 1, ","@) {
            lemma_names_end(before.push(w), toks, i + 2, missing);
        }
    }
}

proof fn lemma_group_end(toks: Seq<TokView>, i: int)
    requires
        0 <= i,
    ensures
        group_at(toks, i) matches Ok((g, end)) ==> i <= end && (i <= toks.len() ==> end <= toks.len()),
{
    lemma_names_end(Seq::empty(), toks, i + 2, SqlErrorView::NoColumn("GROUP BY"@));
}

proof fn lemma_keys_end(before: Seq<OrderKeyView>, toks: Seq<TokView>, i: int)
    requires
        0 <= i,
    ensures
        order_keys_at(before, toks, i) matches Ok((all, end)) ==> i < end <= toks.len(),
    decreases toks.len() - i,
{
    if let Some(column) = name_at(toks, i) {
        let desc = is_kw(toks, i + 1, "DESC"@);
        let dir = if desc {
            OrderDir::Desc
        } else {
            OrderDir::Asc
        };
        let p = if desc || is_kw(toks, i + 1, "ASC"@) {
            i + 2
        } else {
            i + 1
        };
        if is_exactly(toks, p, ","@) {
            lemma_keys_end(before.push(OrderKeyView { column, dir }), toks, p + 1);
        }
    }
}

proof fn lemma_order_end(toks: Seq<TokView>, i: int)
    requires
        0 <= i,
    ensures
        order_at(toks, i) matches Ok((o, end)) ==> i <= end && (i <= toks.len() ==> end <= toks.len()),
{
    lemma_keys_end(Seq::empty(), toks, i + 2);
}

/// Only what says a query is read as one, and as the query that it says: the tokens of a text that is
/// accepted are the words and marks of that query, one after another, to the last one.
#[verifier::rlimit(30)]
pub proof fn lemma_only_queries(s: Seq<char>) -> (r: (int, int, int, int))
    requires
        parsed(s) is Ok,
    ensures
        tokens_from(Seq::empty(), s) is Ok,
        query_said(tokens_from(Seq::empty(), s)->Ok_0, r.0, r.1, r.2, r.3, parsed(s)->Ok_0),
        parsed(s)->Ok_0.validity() is Ok,
{
    let toks = tokens_from(Seq::empty(), s)->Ok_0;
    lemma_letters();
    lemma_marks();
    lemma_keyword(toks, 0, "SELECT"@);
    let (selection, p) = selection_at(toks, 1)->Ok_0;
    lemma_keyword(toks, p, "FROM"@);
    lemma_named(toks, p + 1);
    let none = Seq::<AggView>::empty();
    lemma_read_aggregates(none, toks, 1);
    lemma_read_names(Seq::empty(), toks, 1, SqlErrorView::NoSelection);
    let q = query_at(toks)->Ok_0.0;
    match selection {
        SelectionView::Aggregates(a) => {
            assert(a.skip(0) =~= a);
        },
        SelectionView::Columns(c) => {
            assert(c.skip(0) =~= c);
        },
    }
    assert(0 <= p);
    let b = crate::sql::bare(q.dataset, selection);
    let (x, y, z) = lemma_read_clauses(b, toks, p + 2);
    (p, x, y, z)
}

} // verus!
