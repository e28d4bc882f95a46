//! The query model and its evaluation over the rows of one shard.

use crate::combine;
use crate::combine::{promote, Accum, GroupResult, GroupView, GroupsView, KahanSum, Partial, PartialView};
use crate::dataset::{Row, RowView};
use crate::decimal;
use crate::decimal::{read_float, read_integer};
use crate::float;
use crate::float::Float;
use crate::json::{Json, JsonView};
use crate::order;
use crate::order::{apply_limit, order_rows};
use crate::table::{Duplicate, Table};
use crate::text;
use crate::text::{before, chars_of, equal, trim};
use std::cmp::Ordering;
use vstd::arithmetic::power2::{lemma_pow2_pos, pow2};
use vstd::prelude::*;
use vstd::string::*;

pub use crate::json::Num;

verus! {

/// A number as a floating-point number.
pub open spec fn num_float(n: Num) -> Float {
    match n {
        Num::Int(i) => float::nearest_int(i as int),
        Num::Float(f) => f,
    }
}

/// The number that a value stands for: a JSON number, or a string that writes one.
pub open spec fn float_value(v: JsonView) -> Option<Float> {
    match v {
        JsonView::Number(n) => Some(num_float(n)),
        JsonView::String(s) => decimal::float_of(s),
        _ => None,
    }
}

/// A number as a floating-point number.
pub fn to_float(n: Num) -> (r: Float)
    ensures
        r == num_float(n),
{
    match n {
        Num::Int(i) => Float::nearest(i),
        Num::Float(f) => f,
    }
}

/// The number that a value stands for: a JSON number, or a string that writes one.
pub fn as_f64(v: &Json) -> (r: Option<Float>)
    ensures
        r == float_value(v.deep_view()),
{
    match v {
        Json::Number(n) => Some(to_float(*n)),
        Json::String(s) => read_float(chars_of(s.as_str()).as_slice()),
        _ => None,
    }
}

/// The number that a value stands for, an integer kept exact. White space around a string that
/// writes a number is passed over.
pub open spec fn number_value(v: JsonView) -> Option<Num> {
    match v {
        JsonView::Number(n) => Some(n),
        JsonView::String(s) => match decimal::integer_of(text::trimmed(s)) {
            Some(i) => if i128::MIN <= i <= i128::MAX {
                Some(Num::Int(i as i128))
            } else {
                written_float(text::trimmed(s))
            },
            None => written_float(text::trimmed(s)),
        },
        _ => None,
    }
}

/// The floating-point number that a string writes.
pub open spec fn written_float(s: Seq<char>) -> Option<Num> {
    match decimal::float_of(s) {
        Some(f) => Some(Num::Float(f)),
        None => None,
    }
}

/// The number that a value stands for, an integer kept exact. White space around a string that
/// writes a number is passed over.
pub fn as_number(v: &Json) -> (r: Option<Num>)
    ensures
        r == number_value(v.deep_view()),
{
    match v {
        Json::Number(n) => Some(*n),
        Json::String(s) => {
            let t: String = trim(s.as_str());
            let chars: Vec<char> = chars_of(t.as_str());
            match read_integer(chars.as_slice()) {
                Some(i) => Some(Num::Int(i)),
                None => match read_float(chars.as_slice()) {
                    Some(f) => Some(Num::Float(f)),
                    None => None,
                },
            }
        },
        _ => None,
    }
}

/// The exact value of a number in units of the smallest positive floating-point number.
pub open spec fn num_units(n: Num) -> int {
    match n {
        Num::Int(i) => i * pow2(1074),
        Num::Float(f) => f.units(),
    }
}

/// The number is not one.
pub open spec fn num_is_nan(n: Num) -> bool {
    match n {
        Num::Int(_) => false,
        Num::Float(f) => f.is_nan_spec(),
    }
}

/// Number `a` is less than number `b`: by their exact values, and never where one is not a number.
pub open spec fn num_less(a: Num, b: Num) -> bool {
    match (a, b) {
        (Num::Int(x), Num::Int(y)) => x < y,
        _ => !num_is_nan(a) && !num_is_nan(b) && num_units(a) < num_units(b),
    }
}

/// Number `a` equals number `b`: by their exact values, and never where one is not a number.
pub open spec fn num_same(a: Num, b: Num) -> bool {
    match (a, b) {
        (Num::Int(x), Num::Int(y)) => x == y,
        _ => !num_is_nan(a) && !num_is_nan(b) && num_units(a) == num_units(b),
    }
}

/// Two integers compare as so many units do.
pub proof fn lemma_num_order(a: Num, b: Num)
    ensures
        num_less(a, b) <==> !num_is_nan(a) && !num_is_nan(b) && num_units(a) < num_units(b),
        num_same(a, b) <==> !num_is_nan(a) && !num_is_nan(b) && num_units(a) == num_units(b),
{
    if let (Num::Int(x), Num::Int(y)) = (a, b) {
        let one = pow2(1074);
        lemma_pow2_pos(1074);
        assert(x < y ==> x * one < y * one) by (nonlinear_arith)
            requires
                one > 0,
        ;
        assert(y < x ==> y * one < x * one) by (nonlinear_arith)
            requires
                one > 0,
        ;
    }
}

/// Whether number `a` is less than number `b`.
fn num_lt(a: Num, b: Num) -> (r: bool)
    ensures
        r == num_less(a, b),
{
    match (a, b) {
        (Num::Int(x), Num::Int(y)) => x < y,
        (Num::Int(x), Num::Float(y)) => !y.is_nan() && y.compare_int(x) > 0,
        (Num::Float(x), Num::Int(y)) => !x.is_nan() && x.compare_int(y) < 0,
        (Num::Float(x), Num::Float(y)) => x.lt(y),
    }
}

/// Whether number `a` equals number `b`.
fn num_eq(a: Num, b: Num) -> (r: bool)
    ensures
        r == num_same(a, b),
{
    match (a, b) {
        (Num::Int(x), Num::Int(y)) => x == y,
        (Num::Int(x), Num::Float(y)) => !y.is_nan() && y.compare_int(x) == 0,
        (Num::Float(x), Num::Int(y)) => !x.is_nan() && x.compare_int(y) == 0,
        (Num::Float(x), Num::Float(y)) => x.eq(y),
    }
}

/// How two numbers are ordered; not at all where one is not a number.
pub open spec fn num_order(a: Num, b: Num) -> Option<Ordering> {
    if num_less(a, b) {
        Some(Ordering::Less)
    } else if num_less(b, a) {
        Some(Ordering::Greater)
    } else if num_same(a, b) {
        Some(Ordering::Equal)
    } else {
        None
    }
}

/// How two values are ordered: numbers by value, strings by their characters, false before true,
/// null equal to null; values of different types and other values not at all.
pub open spec fn json_order(a: JsonView, b: JsonView) -> Option<Ordering> {
    match (a, b) {
        (JsonView::Null, JsonView::Null) => Some(Ordering::Equal),
        (JsonView::Bool(x), JsonView::Bool(y)) => Some(
            if x == y {
                Ordering::Equal
            } else if y {
                Ordering::Less
            } else {
                Ordering::Greater
            },
        ),
        (JsonView::Number(x), JsonView::Number(y)) => num_order(x, y),
        (JsonView::String(x), JsonView::String(y)) => Some(
            if x == y {
                Ordering::Equal
            } else if text::precedes(x, y) {
                Ordering::Less
            } else {
                Ordering::Greater
            },
        ),
        _ => None,
    }
}

/// How two values are ordered.
pub fn json_cmp(a: &Json, b: &Json) -> (r: Option<Ordering>)
    ensures
        r == json_order(a.deep_view(), b.deep_view()),
{
    match (a, b) {
        (Json::Null, Json::Null) => Some(Ordering::Equal),
        (Json::Bool(x), Json::Bool(y)) => if *x == *y {
            Some(Ordering::Equal)
        } else if *y {
            Some(Ordering::Less)
        } else {
            Some(Ordering::Greater)
        },
        (Json::Number(x), Json::Number(y)) => {
            let p: Num = *x;
            let q: Num = *y;
            if num_lt(p, q) {
                Some(Ordering::Less)
            } else if num_lt(q, p) {
                Some(Ordering::Greater)
            } else if num_eq(p, q) {
                Some(Ordering::Equal)
            } else {
                None
            }
        },
        (Json::String(x), Json::String(y)) => if equal(x.as_str(), y.as_str()) {
            Some(Ordering::Equal)
        } else if before(x.as_str(), y.as_str()) {
            Some(Ordering::Less)
        } else {
            Some(Ordering::Greater)
        },
        _ => None,
    }
}

/// A comparison operator.
#[derive(Debug, Clone, Copy, PartialEq, Eq, Structural)]
pub enum CmpOp {
    Eq,
    Ne,
    Lt,
    Le,
    Gt,
    Ge,
}

impl CmpOp {
    /// Whether the operator holds of two values. Of values that are not ordered only `Ne` holds.
    pub open spec fn holds(self, left: JsonView, right: JsonView) -> bool {
        let order = json_order(left, right);
        match self {
            CmpOp::Eq => order == Some(Ordering::Equal),
            CmpOp::Ne => order != Some(Ordering::Equal),
            CmpOp::Lt => order == Some(Ordering::Less),
            CmpOp::Le => order == Some(Ordering::Less) || order == Some(Ordering::Equal),
            CmpOp::Gt => order == Some(Ordering::Greater),
            CmpOp::Ge => order == Some(Ordering::Greater) || order == Some(Ordering::Equal),
        }
    }

    /// Whether the operator holds of two values. Of values that are not ordered only `Ne` holds.
    pub fn eval(&self, left: &Json, right: &Json) -> (r: bool)
        ensures
            r == self.holds(left.deep_view(), right.deep_view()),
    {
        let order: Option<Ordering> = json_cmp(left, right);
        match (self, order) {
            (CmpOp::Eq, Some(Ordering::Equal)) => true,
            (CmpOp::Eq, _) => false,
            (CmpOp::Ne, Some(Ordering::Equal)) => false,
            (CmpOp::Ne, _) => true,
            (CmpOp::Lt, Some(Ordering::Less)) => true,
            (CmpOp::Le, Some(Ordering::Less)) => true,
            (CmpOp::Le, Some(Ordering::Equal)) => true,
            (CmpOp::Gt, Some(Ordering::Greater)) => true,
            (CmpOp::Ge, Some(Ordering::Greater)) => true,
            (CmpOp::Ge, Some(Ordering::Equal)) => true,
            _ => false,
        }
    }
}

/// A condition on a row.
#[derive(Debug, PartialEq)]
pub enum Predicate {
    /// Every row.
    True,
    /// A column compared with a literal.
    Cmp { field: String, op: CmpOp, value: Json },
    And(Box<Predicate>, Box<Predicate>),
    Or(Box<Predicate>, Box<Predicate>),
    Not(Box<Predicate>),
}

/// What a [`Predicate`] stands for.
pub enum PredicateView {
    True,
    Cmp { field: Seq<char>, op: CmpOp, value: JsonView },
    And(Box<PredicateView>, Box<PredicateView>),
    Or(Box<PredicateView>, Box<PredicateView>),
    Not(Box<PredicateView>),
}

/// What a predicate stands for.
pub open spec fn predicate_view(p: Predicate) -> PredicateView
    decreases p,
{
    match p {
        Predicate::True => PredicateView::True,
        Predicate::Cmp { field, op, value } => PredicateView::Cmp {
            field: field@,
            op,
            value: value.deep_view(),
        },
        Predicate::And(a, b) => PredicateView::And(
            Box::new(predicate_view(*a)),
            Box::new(predicate_view(*b)),
        ),
        Predicate::Or(a, b) => PredicateView::Or(
            Box::new(predicate_view(*a)),
            Box::new(predicate_view(*b)),
        ),
        Predicate::Not(a) => PredicateView::Not(Box::new(predicate_view(*a))),
    }
}

impl DeepView for Predicate {
    type V = PredicateView;

    open spec fn deep_view(&self) -> PredicateView {
        predicate_view(*self)
    }
}

/// A predicate like this one.
fn copy_predicate(p: &Predicate) -> (r: Predicate)
    ensures
        predicate_view(r) == predicate_view(*p),
    decreases p,
{
    match p {
        Predicate::True => Predicate::True,
        Predicate::Cmp { field, op, value } => Predicate::Cmp {
            field: field.clone(),
            op: *op,
            value: value.duplicate(),
        },
        Predicate::And(a, b) => Predicate::And(
            Box::new(copy_predicate(a)),
            Box::new(copy_predicate(b)),
        ),
        Predicate::Or(a, b) => Predicate::Or(
            Box::new(copy_predicate(a)),
            Box::new(copy_predicate(b)),
        ),
        Predicate::Not(a) => Predicate::Not(Box::new(copy_predicate(a))),
    }
}

impl Duplicate for Predicate {
    fn duplicate(&self) -> (r: Self) {
        copy_predicate(self)
    }
}

impl Clone for Predicate {
    fn clone(&self) -> (r: Predicate)
        ensures
            r.deep_view() == self.deep_view(),
    {
        copy_predicate(self)
    }
}

impl Default for Predicate {
    fn default() -> (r: Predicate)
        ensures
            r.deep_view() == PredicateView::True,
    {
        Predicate::True
    }
}

/// The value in a column of a row; null where the row has no such column.
pub open spec fn cell_value(row: RowView, name: Seq<char>) -> JsonView {
    if row.dom().contains(name) {
        row[name].value
    } else {
        JsonView::Null
    }
}

/// Whether a row meets a condition.
pub open spec fn meets(p: PredicateView, row: RowView) -> bool
    decreases p,
{
    match p {
        PredicateView::True => true,
        PredicateView::Cmp { field, op, value } => op.holds(cell_value(row, field), value),
        PredicateView::And(a, b) => meets(*a, row) && meets(*b, row),
        PredicateView::Or(a, b) => meets(*a, row) || meets(*b, row),
        PredicateView::Not(a) => !meets(*a, row),
    }
}

impl Predicate {
    /// Whether a row meets the condition. A column that the row does not have counts as null.
    pub fn eval(&self, row: &Row) -> (r: bool)
        ensures
            r == meets(self.deep_view(), row.contents()),
        decreases self,
    {
        match self {
            Predicate::True => true,
            Predicate::Cmp { field, op, value } => match row.get(field) {
                Some(cell) => op.eval(&cell.value, value),
                None => op.eval(&Json::Null, value),
            },
            Predicate::And(a, b) => a.eval(row) && b.eval(row),
            Predicate::Or(a, b) => a.eval(row) || b.eval(row),
            Predicate::Not(a) => !a.eval(row),
        }
    }
}

/// An aggregate function.
#[derive(Debug, Clone, PartialEq, Eq)]
pub enum Agg {
    /// The number of rows.
    Count,
    /// The sum of the numbers in a column.
    Sum(String),
    /// The least number in a column.
    Min(String),
    /// The greatest number in a column.
    Max(String),
    /// The mean of the numbers in a column.
    Avg(String),
}

/// What an [`Agg`] stands for.
pub enum AggView {
    Count,
    Sum(Seq<char>),
    Min(Seq<char>),
    Max(Seq<char>),
    Avg(Seq<char>),
}

impl DeepView for Agg {
    type V = AggView;

    open spec fn deep_view(&self) -> AggView {
        match self {
            Agg::Count => AggView::Count,
            Agg::Sum(f) => AggView::Sum(f@),
            Agg::Min(f) => AggView::Min(f@),
            Agg::Max(f) => AggView::Max(f@),
            Agg::Avg(f) => AggView::Avg(f@),
        }
    }
}

impl Duplicate for Agg {
    fn duplicate(&self) -> (r: Self) {
        match self {
            Agg::Count => Agg::Count,
            Agg::Sum(f) => Agg::Sum(f.clone()),
            Agg::Min(f) => Agg::Min(f.clone()),
            Agg::Max(f) => Agg::Max(f.clone()),
            Agg::Avg(f) => Agg::Avg(f.clone()),
        }
    }
}

impl AggView {
    /// The name of the output column.
    pub open spec fn column(self) -> Seq<char> {
        match self {
            AggView::Count => "count"@,
            AggView::Sum(f) => "sum_"@ + f,
            AggView::Min(f) => "min_"@ + f,
            AggView::Max(f) => "max_"@ + f,
            AggView::Avg(f) => "avg_"@ + f,
        }
    }

    /// The state before any row.
    pub open spec fn start(self) -> Accum {
        match self {
            AggView::Count => Accum::Count(0),
            AggView::Sum(_) => Accum::IntSum(0),
            AggView::Min(_) => Accum::Min(None),
            AggView::Max(_) => Accum::Max(None),
            AggView::Avg(_) => Accum::Avg { sum: KahanSum::nothing(), count: 0 },
        }
    }

    /// The state after one more row.
    pub open spec fn after(self, acc: Accum, row: RowView) -> Accum {
        match (self, acc) {
            (AggView::Count, Accum::Count(n)) => Accum::Count(combine::count_sum(n, 1)),
            (AggView::Sum(f), _) => match number_value(cell_value(row, f)) {
                Some(v) => summed(acc, v),
                None => acc,
            },
            (AggView::Min(f), Accum::Min(m)) => Accum::Min(
                combine::min_known(m, float_value(cell_value(row, f))),
            ),
            (AggView::Max(f), Accum::Max(m)) => Accum::Max(
                combine::max_known(m, float_value(cell_value(row, f))),
            ),
            (AggView::Avg(f), Accum::Avg { sum, count }) => match float_value(cell_value(row, f)) {
                Some(v) => Accum::Avg { sum: sum.with(v), count: combine::count_sum(count, 1) },
                None => acc,
            },
            _ => acc,
        }
    }
}

/// The state of a sum after one more number: exact as long as there are only integers and their sum
/// fits, and compensated floating-point from there on.
pub open spec fn summed(acc: Accum, v: Num) -> Accum {
    match (acc, v) {
        (Accum::IntSum(s), Num::Int(i)) => if i128::MIN <= s + i <= i128::MAX {
            Accum::IntSum((s + i) as i128)
        } else {
            Accum::Sum(combine::promoted(s as int).with(float::nearest_int(i as int)))
        },
        (Accum::IntSum(s), Num::Float(x)) => Accum::Sum(combine::promoted(s as int).with(x)),
        (Accum::Sum(k), _) => Accum::Sum(k.with(num_float(v))),
        _ => acc,
    }
}

/// Adds a number to the state of a sum.
fn fold_sum(acc: &mut Accum, v: Num)
    ensures
        *final(acc) == summed(*old(acc), v),
{
    let was: Accum = *acc;
    let now: Accum = match (was, v) {
        (Accum::IntSum(s), Num::Int(i)) => match s.checked_add(i) {
            Some(t) => Accum::IntSum(t),
            None => {
                let mut k: KahanSum = promote(s);
                k.add(Float::nearest(i));
                Accum::Sum(k)
            },
        },
        (Accum::IntSum(s), Num::Float(x)) => {
            let mut k: KahanSum = promote(s);
            k.add(x);
            Accum::Sum(k)
        },
        (Accum::Sum(k), _) => {
            let mut k: KahanSum = k;
            k.add(to_float(v));
            Accum::Sum(k)
        },
        _ => was,
    };
    *acc = now;
}

/// The number in a column of a row.
fn cell_float(row: &Row, name: &String) -> (r: Option<Float>)
    ensures
        r == float_value(cell_value(row.contents(), name@)),
{
    match row.get(name) {
        Some(cell) => as_f64(&cell.value),
        None => None,
    }
}

impl Agg {
    /// The name of the output column.
    pub fn output_name(&self) -> (r: String)
        ensures
            r@ == self.deep_view().column(),
    {
        match self {
            Agg::Count => "count".to_owned(),
            Agg::Sum(f) => "sum_".to_owned().concat(f.as_str()),
            Agg::Min(f) => "min_".to_owned().concat(f.as_str()),
            Agg::Max(f) => "max_".to_owned().concat(f.as_str()),
            Agg::Avg(f) => "avg_".to_owned().concat(f.as_str()),
        }
    }

    /// The state before any row.
    pub fn zero(&self) -> (r: Accum)
        ensures
            r == self.deep_view().start(),
    {
        match self {
            Agg::Count => Accum::Count(0),
            Agg::Sum(_) => Accum::IntSum(0),
            Agg::Min(_) => Accum::Min(None),
            Agg::Max(_) => Accum::Max(None),
            Agg::Avg(_) => Accum::Avg { sum: KahanSum::zero(), count: 0 },
        }
    }

    /// Takes one more row into the state. A cell that is missing or not numeric is passed over.
    pub fn fold(&self, acc: &mut Accum, row: &Row)
        ensures
            *final(acc) == self.deep_view().after(*old(acc), row.contents()),
    {
        let was: Accum = *acc;
        match (self, was) {
            (Agg::Count, Accum::Count(n)) => {
                *acc = Accum::Count(n.saturating_add(1));
            },
            (Agg::Sum(f), _) => match row.get(f) {
                Some(cell) => match as_number(&cell.value) {
                    Some(v) => {
                        fold_sum(acc, v);
                    },
                    None => {},
                },
                None => {},
            },
            (Agg::Min(f), Accum::Min(m)) => match cell_float(row, f) {
                Some(v) => {
                    *acc = Accum::Min(
                        Some(
                            match m {
                                Some(c) => c.min(v),
                                None => v,
                            },
                        ),
                    );
                },
                None => {},
            },
            (Agg::Max(f), Accum::Max(m)) => match cell_float(row, f) {
                Some(v) => {
                    *acc = Accum::Max(
                        Some(
                            match m {
                                Some(c) => c.max(v),
                                None => v,
                            },
                        ),
                    );
                },
                None => {},
            },
            (Agg::Avg(f), Accum::Avg { sum, count }) => match cell_float(row, f) {
                Some(v) => {
                    let mut k: KahanSum = sum;
                    k.add(v);
                    *acc = Accum::Avg { sum: k, count: count.saturating_add(1) };
                },
                None => {},
            },
            _ => {},
        }
    }
}


/// A direction of sorting.
#[derive(Debug, Clone, Copy, PartialEq, Eq, Structural)]
pub enum OrderDir {
    /// From the least to the greatest.
    Asc,
    /// From the greatest to the least.
    Desc,
}

/// A column to sort by, and the direction.
#[derive(Debug, Clone, PartialEq, Eq)]
pub struct OrderKey {
    pub column: String,
    pub dir: OrderDir,
}

/// What an [`OrderKey`] stands for.
pub struct OrderKeyView {
    pub column: Seq<char>,
    pub dir: OrderDir,
}

impl DeepView for OrderKey {
    type V = OrderKeyView;

    open spec fn deep_view(&self) -> OrderKeyView {
        OrderKeyView { column: self.column@, dir: self.dir }
    }
}

impl Duplicate for OrderKey {
    fn duplicate(&self) -> (r: Self) {
        OrderKey { column: self.column.clone(), dir: self.dir }
    }
}

impl OrderKey {
    /// A column to sort by from the least to the greatest.
    pub fn asc(column: &str) -> (r: OrderKey)
        ensures
            r.deep_view() == (OrderKeyView { column: column@, dir: OrderDir::Asc }),
    {
        OrderKey { column: column.to_owned(), dir: OrderDir::Asc }
    }

    /// A column to sort by from the greatest to the least.
    pub fn desc(column: &str) -> (r: OrderKey)
        ensures
            r.deep_view() == (OrderKeyView { column: column@, dir: OrderDir::Desc }),
    {
        OrderKey { column: column.to_owned(), dir: OrderDir::Desc }
    }
}

/// A query: aggregates over the rows of a dataset that meet a condition, by group, or, where there
/// is a projection, some columns of these rows; then ordered and limited.
#[derive(Debug, Clone, PartialEq)]
pub struct Query {
    pub dataset: String,
    pub aggregates: Vec<Agg>,
    pub predicate: Predicate,
    pub group_by: Vec<String>,
    pub order_by: Vec<OrderKey>,
    pub limit: Option<usize>,
    /// The columns of a query for rows, none for all columns; `None` for a query for aggregates.
    pub projection: Option<Vec<String>>,
}

/// What a [`Query`] stands for.
pub struct QueryView {
    pub dataset: Seq<char>,
    pub aggregates: Seq<AggView>,
    pub predicate: PredicateView,
    pub group_by: Seq<Seq<char>>,
    pub order_by: Seq<OrderKeyView>,
    pub limit: Option<usize>,
    pub projection: Option<Seq<Seq<char>>>,
}

impl DeepView for Query {
    type V = QueryView;

    open spec fn deep_view(&self) -> QueryView {
        QueryView {
            dataset: self.dataset@,
            aggregates: self.aggregates.deep_view(),
            predicate: self.predicate.deep_view(),
            group_by: self.group_by.deep_view(),
            order_by: self.order_by.deep_view(),
            limit: self.limit,
            projection: self.projection.deep_view(),
        }
    }
}

impl Duplicate for Query {
    fn duplicate(&self) -> (r: Self) {
        Query {
            dataset: self.dataset.clone(),
            aggregates: self.aggregates.duplicate(),
            predicate: self.predicate.duplicate(),
            group_by: self.group_by.duplicate(),
            order_by: self.order_by.duplicate(),
            limit: self.limit,
            projection: self.projection.duplicate(),
        }
    }
}

/// Why a query cannot be run.
#[derive(Debug, Clone, Copy, PartialEq, Eq, Structural)]
pub enum QueryError {
    NoDataset,
    ProjectionWithAggregates,
    ProjectionWithGroups,
    NoAggregates,
}

impl QueryError {
    /// The words of the error.
    pub open spec fn words(self) -> Seq<char> {
        match self {
            QueryError::NoDataset => "query has no dataset"@,
            QueryError::ProjectionWithAggregates => "a projection query cannot also select aggregates"@,
            QueryError::ProjectionWithGroups =>
                "a projection query cannot use GROUP BY (it returns raw rows)"@,
            QueryError::NoAggregates =>
                "query selects no aggregates (need at least one of COUNT/SUM/MIN/MAX/AVG) or a projection"@,
        }
    }

    /// The words of the error.
    pub fn message(&self) -> (r: String)
        ensures
            r@ == self.words(),
    {
        match self {
            QueryError::NoDataset => "query has no dataset".to_owned(),
            QueryError::ProjectionWithAggregates =>
                "a projection query cannot also select aggregates".to_owned(),
            QueryError::ProjectionWithGroups =>
                "a projection query cannot use GROUP BY (it returns raw rows)".to_owned(),
            QueryError::NoAggregates =>
                "query selects no aggregates (need at least one of COUNT/SUM/MIN/MAX/AVG) or a projection".to_owned(),
        }
    }
}

/// The key of the group that a row belongs to: its cells in the columns to group by, each as a key,
/// empty where the row has no such column.
pub open spec fn key_of(group_by: Seq<Seq<char>>, row: RowView) -> Seq<Seq<char>> {
    Seq::new(
        group_by.len(),
        |i: int|
            if row.dom().contains(group_by[i]) {
                row[group_by[i]].as_key()
            } else {
                Seq::empty()
            },
    )
}

/// The states before any row.
pub open spec fn start_states(aggregates: Seq<AggView>) -> Seq<Accum> {
    Seq::new(aggregates.len(), |i: int| aggregates[i].start())
}

/// The states after one more row.
pub open spec fn next_states(aggregates: Seq<AggView>, states: Seq<Accum>, row: RowView) -> Seq<Accum> {
    Seq::new(states.len(), |i: int| aggregates[i].after(states[i], row))
}

impl QueryView {
    /// Why the query cannot be run, if it cannot.
    pub open spec fn validity(self) -> Result<(), QueryError> {
        if text::trimmed(self.dataset).len() == 0 {
            Err(QueryError::NoDataset)
        } else if self.projection is Some {
            if self.aggregates.len() > 0 {
                Err(QueryError::ProjectionWithAggregates)
            } else if self.group_by.len() > 0 {
                Err(QueryError::ProjectionWithGroups)
            } else {
                Ok(())
            }
        } else if self.aggregates.len() == 0 {
            Err(QueryError::NoAggregates)
        } else {
            Ok(())
        }
    }

    /// The groups of rows: the states of each group after the rows that belong to it and meet the
    /// condition.
    pub open spec fn mapped(self, rows: Seq<RowView>) -> GroupsView
        decreases rows.len(),
    {
        if rows.len() == 0 {
            Map::empty()
        } else {
            let groups = self.mapped(rows.drop_last());
            let row = rows.last();
            if !meets(self.predicate, row) {
                groups
            } else {
                let key = key_of(self.group_by, row);
                let states = if groups.dom().contains(key) {
                    groups[key]
                } else {
                    start_states(self.aggregates)
                };
                groups.insert(key, next_states(self.aggregates, states, row))
            }
        }
    }

    /// Result rows, ordered and then limited.
    pub open spec fn shaped(self, rows: Seq<GroupView>) -> Seq<GroupView> {
        order::limited(order::ordered_groups(rows, self.group_by, self.order_by), self.limit)
    }

    /// The columns of a row that the query asks for.
    pub open spec fn kept(self, row: RowView) -> RowView {
        match self.projection {
            Some(columns) => if columns.len() == 0 {
                row
            } else {
                Map::new(
                    |c: Seq<char>| columns.contains(c) && row.dom().contains(c),
                    |c: Seq<char>| row[c],
                )
            },
            None => row,
        }
    }

    /// The rows that meet the condition, with the columns that the query asks for.
    pub open spec fn projected(self, rows: Seq<RowView>) -> Seq<RowView>
        decreases rows.len(),
    {
        if rows.len() == 0 {
            Seq::empty()
        } else if meets(self.predicate, rows.last()) {
            self.projected(rows.drop_last()).push(self.kept(rows.last()))
        } else {
            self.projected(rows.drop_last())
        }
    }
}

/// The columns `columns` of a row.
fn keep_columns(columns: &Vec<String>, row: &Row) -> (r: Row)
    ensures
        r.contents() == Map::<Seq<char>, crate::json::CellView>::new(
            |c: Seq<char>| columns.deep_view().contains(c) && row.contents().dom().contains(c),
            |c: Seq<char>| row.contents()[c],
        ),
{
    let ghost all = columns.deep_view();
    let mut out: Row = Table::new();
    let mut i: usize = 0;
    while i < columns.len()
        invariant
            i <= columns@.len(),
            all == columns.deep_view(),
            forall|c: Seq<char>| #[trigger]
                out.contents().dom().contains(c) <==> all.take(i as int).contains(c)
                    && row.contents().dom().contains(c),
            forall|c: Seq<char>|
                out.contents().dom().contains(c) ==> #[trigger] out.contents()[c] == row.contents()[c],
        decreases columns@.len() - i,
    {
        let ghost s = all.take(i as int);
        let ghost name = all[i as int];
        proof {
            assert(all.take(i + 1) =~= s.push(name));
            assert forall|c: Seq<char>| #[trigger]
                s.push(name).contains(c) <==> s.contains(c) || c == name by {
                if s.contains(c) {
                    assert(s.push(name)[s.index_of(c)] == c);
                }
                assert(s.push(name)[i as int] == name);
                if s.push(name).contains(c) && c != name {
                    assert(s[s.push(name).index_of(c)] == c);
                }
            }
        }
        let ghost was = out.contents();
        match row.get(&columns[i]) {
            Some(cell) => {
                out.insert(columns[i].clone(), cell.duplicate());
            },
            None => {},
        }
        proof {
            assert forall|c: Seq<char>| #[trigger]
                out.contents().dom().contains(c) <==> all.take(i + 1).contains(c)
                    && row.contents().dom().contains(c) by {
                assert(was.dom().contains(c) <==> s.contains(c) && row.contents().dom().contains(c));
            }
        }
        i = i + 1;
    }
    proof {
        assert(all.take(all.len() as int) =~= all);
        assert(out.contents() =~= Map::new(
            |c: Seq<char>| columns.deep_view().contains(c) && row.contents().dom().contains(c),
            |c: Seq<char>| row.contents()[c],
        ));
    }
    out
}

impl Query {
    /// A query over a dataset that asks for nothing yet.
    pub fn new(dataset: &str) -> (r: Query)
        ensures
            r.deep_view() == (QueryView {
                dataset: dataset@,
                aggregates: Seq::empty(),
                predicate: PredicateView::True,
                group_by: Seq::empty(),
                order_by: Seq::empty(),
                limit: None,
                projection: None,
            }),
    {
        let r = Query {
            dataset: dataset.to_owned(),
            aggregates: Vec::new(),
            predicate: Predicate::True,
            group_by: Vec::new(),
            order_by: Vec::new(),
            limit: None,
            projection: None,
        };
        proof {
            assert(r.aggregates.deep_view() =~= Seq::<AggView>::empty());
            assert(r.group_by.deep_view() =~= Seq::<Seq<char>>::empty());
            assert(r.order_by.deep_view() =~= Seq::<OrderKeyView>::empty());
        }
        r
    }

    /// A query for rows: the columns `columns`, or all columns where there are none. Aggregates and
    /// groups are dropped.
    pub fn project(self, columns: Vec<String>) -> (r: Query)
        ensures
            r.deep_view() == (QueryView {
                aggregates: Seq::empty(),
                group_by: Seq::empty(),
                projection: Some(columns.deep_view()),
                ..self.deep_view()
            }),
    {
        let mut q: Query = self;
        q.aggregates = Vec::new();
        q.group_by = Vec::new();
        q.projection = Some(columns);
        proof {
            assert(q.aggregates.deep_view() =~= Seq::<AggView>::empty());
            assert(q.group_by.deep_view() =~= Seq::<Seq<char>>::empty());
        }
        q
    }

    /// Whether the query is for rows.
    pub fn is_projection(&self) -> (r: bool)
        ensures
            r == self.deep_view().projection is Some,
    {
        self.projection.is_some()
    }

    /// The query with one more aggregate.
    pub fn agg(self, a: Agg) -> (r: Query)
        ensures
            r.deep_view() == (QueryView {
                aggregates: self.deep_view().aggregates.push(a.deep_view()),
                ..self.deep_view()
            }),
    {
        let mut q: Query = self;
        let ghost was = q.aggregates.deep_view();
        let ghost added = a.deep_view();
        q.aggregates.push(a);
        proof {
            assert(q.aggregates.deep_view() =~= was.push(added));
        }
        q
    }

    /// The query with another condition.
    pub fn filter(self, p: Predicate) -> (r: Query)
        ensures
            r.deep_view() == (QueryView { predicate: p.deep_view(), ..self.deep_view() }),
    {
        let mut q: Query = self;
        q.predicate = p;
        q
    }

    /// The query with one more column to group by.
    pub fn group(self, key: &str) -> (r: Query)
        ensures
            r.deep_view() == (QueryView {
                group_by: self.deep_view().group_by.push(key@),
                ..self.deep_view()
            }),
    {
        let mut q: Query = self;
        let ghost was = q.group_by.deep_view();
        q.group_by.push(key.to_owned());
        proof {
            assert(q.group_by.deep_view() =~= was.push(key@));
        }
        q
    }

    /// The query with one more column to sort by.
    pub fn order(self, key: OrderKey) -> (r: Query)
        ensures
            r.deep_view() == (QueryView {
                order_by: self.deep_view().order_by.push(key.deep_view()),
                ..self.deep_view()
            }),
    {
        let mut q: Query = self;
        let ghost was = q.order_by.deep_view();
        let ghost added = key.deep_view();
        q.order_by.push(key);
        proof {
            assert(q.order_by.deep_view() =~= was.push(added));
        }
        q
    }

    /// The query with a limit on the number of result rows.
    pub fn limit(self, n: usize) -> (r: Query)
        ensures
            r.deep_view() == (QueryView { limit: Some(n), ..self.deep_view() }),
    {
        let mut q: Query = self;
        q.limit = Some(n);
        q
    }

    /// Orders and then limits result rows.
    pub fn shape(&self, rows: Vec<GroupResult>) -> (r: Vec<GroupResult>)
        ensures
            r.deep_view() == self.deep_view().shaped(rows.deep_view()),
    {
        let mut rows: Vec<GroupResult> = rows;
        order_rows(&mut rows, self.group_by.as_slice(), self.order_by.as_slice());
        apply_limit(&mut rows, self.limit);
        rows
    }

    /// Whether the query can be run: it names a dataset, and asks either for aggregates or for rows.
    pub fn validate(&self) -> (r: Result<(), QueryError>)
        ensures
            r == self.deep_view().validity(),
    {
        let name: Vec<char> = chars_of(trim(self.dataset.as_str()).as_str());
        if name.len() == 0 {
            return Err(QueryError::NoDataset);
        }
        if self.projection.is_some() {
            if self.aggregates.len() > 0 {
                return Err(QueryError::ProjectionWithAggregates);
            }
            if self.group_by.len() > 0 {
                return Err(QueryError::ProjectionWithGroups);
            }
            return Ok(());
        }
        if self.aggregates.len() == 0 {
            return Err(QueryError::NoAggregates);
        }
        Ok(())
    }

    /// The key of the group that a row belongs to.
    fn group_key(&self, row: &Row) -> (r: Vec<String>)
        ensures
            r.deep_view() == key_of(self.deep_view().group_by, row.contents()),
    {
        let mut key: Vec<String> = Vec::new();
        let mut i: usize = 0;
        while i < self.group_by.len()
            invariant
                i <= self.group_by@.len(),
                key@.len() == i,
                forall|j: int|
                    0 <= j < i ==> (#[trigger] key@[j])@ == key_of(
                        self.deep_view().group_by,
                        row.contents(),
                    )[j],
            decreases self.group_by@.len() - i,
        {
            let part: String = match row.get(&self.group_by[i]) {
                Some(cell) => cell.key(),
                None => String::new(),
            };
            key.push(part);
            i = i + 1;
        }
        proof {
            assert(key.deep_view() =~= key_of(self.deep_view().group_by, row.contents()));
        }
        key
    }

    /// Evaluates the query over the rows of one shard.
    pub fn map_shard(&self, rows: &[Row]) -> (r: Partial)
        ensures
            r.deep_view() == (PartialView {
                aggregates: self.deep_view().aggregates,
                groups: self.deep_view().mapped(rows.deep_view()),
            }),
    {
        let ghost q = self.deep_view();
        let ghost all = rows.deep_view();
        let mut groups: Table<Vec<String>, Vec<Accum>> = Table::new();
        let mut i: usize = 0;
        proof {
            assert(all.take(0) =~= Seq::<RowView>::empty());
        }
        while i < rows.len()
            invariant
                i <= rows@.len(),
                q == self.deep_view(),
                all == rows.deep_view(),
                groups.contents() == q.mapped(all.take(i as int)),
            decreases rows@.len() - i,
        {
            let row: &Row = &rows[i];
            let ghost was = groups.contents();
            proof {
                assert(all.take(i + 1).drop_last() =~= all.take(i as int));
                assert(all.take(i + 1).last() == row.contents());
                lemma_states(q, all.take(i as int));
            }
            if self.predicate.eval(row) {
                let key: Vec<String> = self.group_key(row);
                let ghost k = key.deep_view();
                match groups.position(&key) {
                    Some(at) => {
                        let mut states: Vec<Accum> = groups.exchange(at, Vec::new());
                        assert(states.deep_view() == q.mapped(all.take(i as int))[k]);
                        assert(states.deep_view().len() == states@.len());
                        assert(q.mapped(all.take(i as int))[k].len() == q.aggregates.len());
                        self.fold_all(&mut states, row);
                        let ghost now = states.deep_view();
                        let _unused: Vec<Accum> = groups.exchange(at, states);
                        proof {
                            assert(groups.contents() =~= was.insert(k, now));
                        }
                    },
                    None => {
                        let mut states: Vec<Accum> = self.start_all();
                        self.fold_all(&mut states, row);
                        groups.insert(key, states);
                    },
                }
            }
            i = i + 1;
        }
        proof {
            assert(all.take(all.len() as int) =~= all);
        }
        Partial { aggregates: self.aggregates.duplicate(), groups }
    }

    /// The states before any row.
    fn start_all(&self) -> (r: Vec<Accum>)
        ensures
            r.deep_view() == start_states(self.deep_view().aggregates),
            r@.len() == self.aggregates@.len(),
    {
        let mut out: Vec<Accum> = Vec::new();
        let mut i: usize = 0;
        while i < self.aggregates.len()
            invariant
                i <= self.aggregates@.len(),
                out@.len() == i,
                forall|j: int|
                    0 <= j < i ==> #[trigger] out@[j] == start_states(self.deep_view().aggregates)[j],
            decreases self.aggregates@.len() - i,
        {
            out.push(self.aggregates[i].zero());
            i = i + 1;
        }
        proof {
            assert(out.deep_view() =~= start_states(self.deep_view().aggregates));
        }
        out
    }

    /// Takes one more row into the states.
    fn fold_all(&self, states: &mut Vec<Accum>, row: &Row)
        requires
            old(states)@.len() == self.aggregates@.len(),
        ensures
            final(states).deep_view() == next_states(
                self.deep_view().aggregates,
                old(states).deep_view(),
                row.contents(),
            ),
    {
        let ghost was = states.deep_view();
        let ghost names = self.deep_view().aggregates;
        let n: usize = self.aggregates.len();
        let mut i: usize = 0;
        while i < n
            invariant
                i <= n == self.aggregates@.len() == states@.len() == was.len(),
                names == self.deep_view().aggregates,
                forall|j: int|
                    0 <= j < i ==> states@[j] == (#[trigger] names[j]).after(was[j], row.contents()),
                forall|j: int| i <= j < n ==> states@[j] == #[trigger] was[j],
            decreases n - i,
        {
            let mut state: Accum = states[i];
            proof {
                assert(state == was[i as int]);
                assert(names[i as int] == self.aggregates@[i as int].deep_view());
            }
            self.aggregates[i].fold(&mut state, row);
            states.set(i, state);
            i = i + 1;
        }
        proof {
            assert forall|j: int| 0 <= j < n implies states.deep_view()[j] == next_states(
                names,
                was,
                row.contents(),
            )[j] by {
                assert(names[j] == names[j]);
            }
            assert(states.deep_view() =~= next_states(names, was, row.contents()));
        }
    }

    /// The rows of one shard that meet the condition, with the columns that the query asks for.
    pub fn project_shard(&self, rows: &[Row]) -> (r: Vec<Row>)
        ensures
            r.deep_view() == self.deep_view().projected(rows.deep_view()),
    {
        let ghost q = self.deep_view();
        let ghost all = rows.deep_view();
        let mut out: Vec<Row> = Vec::new();
        let mut i: usize = 0;
        proof {
            assert(all.take(0) =~= Seq::<RowView>::empty());
            assert(out.deep_view() =~= Seq::<RowView>::empty());
        }
        while i < rows.len()
            invariant
                i <= rows@.len(),
                q == self.deep_view(),
                all == rows.deep_view(),
                out.deep_view() == q.projected(all.take(i as int)),
            decreases rows@.len() - i,
        {
            let row: &Row = &rows[i];
            proof {
                assert(all.take(i + 1).drop_last() =~= all.take(i as int));
                assert(all.take(i + 1).last() == row.contents());
            }
            if self.predicate.eval(row) {
                let ghost was = out.deep_view();
                let kept: Row = match &self.projection {
                    Some(columns) => {
                        if columns.len() == 0 {
                            row.duplicate()
                        } else {
                            keep_columns(columns, row)
                        }
                    },
                    None => row.duplicate(),
                };
                out.push(kept);
                proof {
                    assert(out.deep_view() =~= was.push(kept.contents()));
                }
            }
            i = i + 1;
        }
        proof {
            assert(all.take(all.len() as int) =~= all);
        }
        out
    }
}

/// A limit keeps the first rows of the full order, and no others.
pub proof fn lemma_limit_is_prefix(q: QueryView, rows: Seq<GroupView>, n: usize)
    ensures
        (QueryView { limit: Some(n), ..q }).shaped(rows) == ({
            let full = (QueryView { limit: None, ..q }).shaped(rows);
            if n < full.len() {
                full.take(n as int)
            } else {
                full
            }
        }),
{
}

/// Without an order and a limit, result rows stay as they are.
pub proof fn lemma_shape_is_identity(q: QueryView, rows: Seq<GroupView>)
    requires
        q.order_by.len() == 0,
        q.limit is None,
    ensures
        q.shaped(rows) == rows,
{
    assert(q.order_by =~= Seq::<OrderKeyView>::empty());
    order::lemma_no_order(rows, q.group_by, Seq::empty());
}

/// Every group has one state of each aggregate.
pub proof fn lemma_states(q: QueryView, rows: Seq<RowView>)
    ensures
        forall|k: Seq<Seq<char>>|
            q.mapped(rows).dom().contains(k) ==> (#[trigger] q.mapped(rows)[k]).len()
                == q.aggregates.len(),
    decreases rows.len(),
{
    if rows.len() > 0 {
        lemma_states(q, rows.drop_last());
        let before = q.mapped(rows.drop_last());
        let after = q.mapped(rows);
        let key = key_of(q.group_by, rows.last());
        assert forall|k: Seq<Seq<char>>| after.dom().contains(k) implies (#[trigger] after[k]).len()
            == q.aggregates.len() by {
            if k != key || !meets(q.predicate, rows.last()) {
                assert(after[k] == before[k]);
                assert(before.dom().contains(k));
            } else if before.dom().contains(key) {
                assert(before[key].len() == q.aggregates.len());
            }
        }
    }
}

} // verus!
