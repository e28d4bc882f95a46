//! The query language.
//!
//! ```text
//! SELECT <agg> [, <agg>]* | <col> [, <col>]* | *   FROM <dataset> [WHERE <pred>]
//!        [GROUP BY <col> [, <col>]*] [ORDER BY <col> [ASC|DESC] [, ...]] [LIMIT <n>]
//! <agg>   := COUNT(*) | SUM(col) | MIN(col) | MAX(col) | AVG(col)
//! <pred>  := <term> [ (AND|OR) <term> ]*
//! <term>  := [NOT] col <op> <literal>
//! <op>    := = | != | <> | < | <= | > | >=
//! <literal> := number | 'string' | "string" | true | false | null
//! ```
//!
//! Keywords may be written in either case. `AND` and `OR` bind alike, from the left.

use crate::decimal;
use crate::decimal::{is_word, read_float, read_integer};
use crate::float;
use crate::json::{Json, JsonView, Num};
use crate::query::{
    Agg, AggView, CmpOp, OrderDir, OrderKey, OrderKeyView, Predicate, PredicateView, Query,
    QueryError, QueryView,
};
use crate::table::Duplicate;
use crate::text;
use crate::text::{chars_of, equal, glue, slice_of, space};
use vstd::prelude::*;
use vstd::string::*;

verus! {

/// A token: a word, an operator or a punctuation mark, or a quoted string.
#[derive(Debug, Clone, PartialEq, Eq)]
pub enum Tok {
    Word(String),
    Str(String),
}

/// What a [`Tok`] stands for.
pub enum TokView {
    Word(Seq<char>),
    Str(Seq<char>),
}

impl DeepView for Tok {
    type V = TokView;

    open spec fn deep_view(&self) -> TokView {
        match self {
            Tok::Word(s) => TokView::Word(s@),
            Tok::Str(s) => TokView::Str(s@),
        }
    }
}

impl Duplicate for Tok {
    fn duplicate(&self) -> (r: Self) {
        match self {
            Tok::Word(s) => Tok::Word(s.clone()),
            Tok::Str(s) => Tok::Str(s.clone()),
        }
    }
}

/// Why a text is no query.
#[derive(Debug, Clone, PartialEq, Eq)]
pub enum SqlError {
    /// A quoted string has no end.
    Unterminated,
    /// Another token was expected; what stands there instead.
    Expected(String, Option<Tok>),
    /// There is no dataset name after `FROM`.
    NoDataset,
    /// There is no column after a keyword, which is given.
    NoColumn(String),
    /// There is nothing to select.
    NoSelection,
    /// There is no argument of an aggregate function.
    NoArgument(Option<Tok>),
    /// There is no aggregate function of this name.
    UnknownFunction(String),
    /// `*` stands where a column must.
    StarArgument,
    /// There is no column name in a condition.
    NoField,
    /// There is no comparison operator.
    NoOperator(Option<Tok>),
    /// There is no comparison operator of this name.
    UnknownOperator(String),
    /// There is no literal, or an operator or a mark in its place.
    NoLiteral,
    /// The limit is no number of rows.
    BadLimit(Option<Tok>),
    /// Something follows the query.
    Trailing(String),
    /// The query cannot be run.
    Invalid(QueryError),
}

/// What a [`SqlError`] stands for.
pub enum SqlErrorView {
    Unterminated,
    Expected(Seq<char>, Option<TokView>),
    NoDataset,
    NoColumn(Seq<char>),
    NoSelection,
    NoArgument(Option<TokView>),
    UnknownFunction(Seq<char>),
    StarArgument,
    NoField,
    NoOperator(Option<TokView>),
    UnknownOperator(Seq<char>),
    NoLiteral,
    BadLimit(Option<TokView>),
    Trailing(Seq<char>),
    Invalid(QueryError),
}

impl DeepView for SqlError {
    type V = SqlErrorView;

    open spec fn deep_view(&self) -> SqlErrorView {
        match self {
            SqlError::Unterminated => SqlErrorView::Unterminated,
            SqlError::Expected(w, t) => SqlErrorView::Expected(w@, t.deep_view()),
            SqlError::NoDataset => SqlErrorView::NoDataset,
            SqlError::NoColumn(w) => SqlErrorView::NoColumn(w@),
            SqlError::NoSelection => SqlErrorView::NoSelection,
            SqlError::NoArgument(t) => SqlErrorView::NoArgument(t.deep_view()),
            SqlError::UnknownFunction(w) => SqlErrorView::UnknownFunction(w@),
            SqlError::StarArgument => SqlErrorView::StarArgument,
            SqlError::NoField => SqlErrorView::NoField,
            SqlError::NoOperator(t) => SqlErrorView::NoOperator(t.deep_view()),
            SqlError::UnknownOperator(w) => SqlErrorView::UnknownOperator(w@),
            SqlError::NoLiteral => SqlErrorView::NoLiteral,
            SqlError::BadLimit(t) => SqlErrorView::BadLimit(t.deep_view()),
            SqlError::Trailing(w) => SqlErrorView::Trailing(w@),
            SqlError::Invalid(e) => SqlErrorView::Invalid(*e),
        }
    }
}

/// A character that is a token of its own.
pub open spec fn is_mark(c: char) -> bool {
    c == '=' || c == '<' || c == '>' || c == ',' || c == '(' || c == ')' || c == '*'
}

pub open spec fn is_quote(c: char) -> bool {
    c == '\'' || c == '"'
}

/// Two characters that are an operator.
pub open spec fn is_pair(a: char, b: char) -> bool {
    (a == '<' && b == '=') || (a == '>' && b == '=') || (a == '!' && b == '=') || (a == '<' && b == '>')
}

/// A character that ends a word.
pub open spec fn ends_word(c: char) -> bool {
    text::is_space(c) || is_mark(c) || is_quote(c)
}

/// `s` starts with `!=`.
pub open spec fn starts_unequal(s: Seq<char>) -> bool {
    s.len() >= 2 && s[0] == '!' && s[1] == '='
}

/// How many characters at the start of `s` belong to a word.
pub open spec fn word_len(s: Seq<char>) -> nat
    decreases s.len(),
{
    if s.len() == 0 || ends_word(s[0]) || starts_unequal(s) {
        0
    } else {
        1 + word_len(s.skip(1))
    }
}

/// How many characters stand at the start of `s` before the first `q`.
pub open spec fn quote_len(s: Seq<char>, q: char) -> nat
    decreases s.len(),
{
    if s.len() == 0 || s[0] == q {
        0
    } else {
        1 + quote_len(s.skip(1), q)
    }
}

/// A token at the start of a text, and how many characters it takes; no token where the text starts
/// with white space.
pub open spec fn first_token(s: Seq<char>) -> Result<(Option<TokView>, nat), SqlErrorView> {
    let c = s[0];
    if text::is_space(c) {
        Ok((None, 1))
    } else if is_quote(c) {
        let n = quote_len(s.skip(1), c);
        if n + 1 >= s.len() {
            Err(SqlErrorView::Unterminated)
        } else {
            Ok((Some(TokView::Str(s.subrange(1, n as int + 1))), n + 2))
        }
    } else if s.len() >= 2 && is_pair(c, s[1]) {
        Ok((Some(TokView::Word(s.take(2))), 2))
    } else if is_mark(c) {
        Ok((Some(TokView::Word(s.take(1))), 1))
    } else {
        Ok((Some(TokView::Word(s.take(word_len(s) as int))), word_len(s)))
    }
}

/// The tokens of a text, after those of `before`.
pub open spec fn tokens_from(before: Seq<TokView>, s: Seq<char>) -> Result<Seq<TokView>, SqlErrorView>
    decreases s.len(),
{
    if s.len() == 0 {
        Ok(before)
    } else {
        match first_token(s) {
            Err(e) => Err(e),
            Ok((t, n)) => if 0 < n <= s.len() {
                tokens_from(
                    match t {
                        Some(t) => before.push(t),
                        None => before,
                    },
                    s.skip(n as int),
                )
            } else {
                Ok(before)
            },
        }
    }
}

/// Place `i` of `s` belongs to a word.
pub open spec fn in_word(s: Seq<char>, i: int) -> bool {
    !ends_word(s[i]) && !(i + 1 < s.len() && s[i] == '!' && s[i + 1] == '=')
}

pub(crate) proof fn lemma_word_len(s: Seq<char>, n: nat)
    requires
        n <= s.len(),
        forall|i: int| 0 <= i < n ==> #[trigger] in_word(s, i),
        n == s.len() || !in_word(s, n as int),
    ensures
        word_len(s) == n,
    decreases n,
{
    if n > 0 {
        assert(in_word(s, 0));
        let rest = s.skip(1);
        assert forall|i: int| 0 <= i < n - 1 implies #[trigger] in_word(rest, i) by {
            assert(in_word(s, i + 1));
        }
        if n < s.len() {
            assert(!in_word(rest, n - 1));
        }
        lemma_word_len(rest, (n - 1) as nat);
    }
}

pub(crate) proof fn lemma_quote_len(s: Seq<char>, q: char, n: nat)
    requires
        n <= s.len(),
        forall|i: int| 0 <= i < n ==> #[trigger] s[i] != q,
        n == s.len() || s[n as int] == q,
    ensures
        quote_len(s, q) == n,
    decreases n,
{
    if n > 0 {
        assert(s[0] != q);
        assert forall|i: int| 0 <= i < n - 1 implies #[trigger] s.skip(1)[i] != q by {
            assert(s.skip(1)[i] == s[i + 1]);
        }
        lemma_quote_len(s.skip(1), q, (n - 1) as nat);
    }
}

proof fn lemma_word_chars(s: Seq<char>)
    ensures
        word_len(s) <= s.len(),
        forall|i: int| 0 <= i < word_len(s) ==> #[trigger] in_word(s, i),
        word_len(s) < s.len() ==> !in_word(s, word_len(s) as int),
    decreases s.len(),
{
    if s.len() > 0 && !ends_word(s[0]) && !starts_unequal(s) {
        let rest = s.skip(1);
        lemma_word_chars(rest);
        assert forall|i: int| 0 <= i < word_len(s) implies #[trigger] in_word(s, i) by {
            if i > 0 {
                assert(in_word(rest, i - 1));
            }
        }
        if word_len(s) < s.len() {
            assert(!in_word(rest, word_len(rest) as int));
        }
    }
}

proof fn lemma_quote_chars(s: Seq<char>, q: char)
    ensures
        quote_len(s, q) <= s.len(),
        forall|i: int| 0 <= i < quote_len(s, q) ==> #[trigger] s[i] != q,
        quote_len(s, q) < s.len() ==> s[quote_len(s, q) as int] == q,
    decreases s.len(),
{
    if s.len() > 0 && s[0] != q {
        let rest = s.skip(1);
        lemma_quote_chars(rest, q);
        assert forall|i: int| 0 <= i < quote_len(s, q) implies #[trigger] s[i] != q by {
            if i > 0 {
                assert(rest[i - 1] == s[i]);
            }
        }
        if quote_len(s, q) < s.len() {
            assert(rest[quote_len(rest, q) as int] == s[quote_len(s, q) as int]);
        }
    }
}

/// The text without the white space outside its quoted strings.
pub open spec fn squeezed(s: Seq<char>) -> Seq<char>
    decreases s.len(),
{
    if s.len() == 0 {
        s
    } else if text::is_space(s[0]) {
        squeezed(s.skip(1))
    } else if is_quote(s[0]) {
        let n = quote_len(s.skip(1), s[0]) as int + 2;
        if n > s.len() {
            s
        } else {
            s.take(n) + squeezed(s.skip(n))
        }
    } else {
        s.take(1) + squeezed(s.skip(1))
    }
}

/// A token as it is written: a word as itself, a string between quotes `q`.
pub open spec fn written(t: TokView, q: char) -> Seq<char> {
    match t {
        TokView::Word(w) => w,
        TokView::Str(w) => seq![q] + w + seq![q],
    }
}

/// Tokens as they are written, one after another.
pub open spec fn written_all(toks: Seq<TokView>, quotes: Seq<char>) -> Seq<char>
    decreases toks.len(),
{
    if toks.len() == 0 {
        Seq::empty()
    } else {
        written(toks[0], quotes[0]) + written_all(toks.skip(1), quotes.skip(1))
    }
}

/// What comes before does not matter to the tokens of a text.
proof fn lemma_tokens_before(before: Seq<TokView>, s: Seq<char>)
    ensures
        tokens_from(before, s) == (match tokens_from(Seq::empty(), s) {
            Ok(toks) => Ok::<Seq<TokView>, SqlErrorView>(before + toks),
            Err(e) => Err(e),
        }),
    decreases s.len(),
{
    let none = Seq::<TokView>::empty();
    if s.len() == 0 {
        assert(before + none =~= before);
    } else if let Ok((t, n)) = first_token(s) {
        if 0 < n <= s.len() {
            let rest = s.skip(n as int);
            match t {
                Some(t) => {
                    lemma_tokens_before(before.push(t), rest);
                    lemma_tokens_before(none.push(t), rest);
                    if let Ok(toks) = tokens_from(none, rest) {
                        assert(before + (none.push(t) + toks) =~= before.push(t) + toks);
                    }
                },
                None => {
                    lemma_tokens_before(before, rest);
                },
            }
        } else {
            assert(before + none =~= before);
        }
    }
}

/// Characters that are neither white space nor quotes are kept.
proof fn lemma_squeezed_start(s: Seq<char>, n: int)
    requires
        0 <= n <= s.len(),
        forall|i: int| 0 <= i < n ==> !text::is_space(#[trigger] s[i]) && !is_quote(s[i]),
    ensures
        squeezed(s) == s.take(n) + squeezed(s.skip(n)),
    decreases n,
{
    if n == 0 {
        assert(s.skip(0) =~= s);
        assert(s.take(0) + squeezed(s) =~= squeezed(s));
    } else {
        let rest = s.skip(1);
        assert forall|i: int| 0 <= i < n - 1 implies !text::is_space(#[trigger] rest[i]) && !is_quote(
            rest[i],
        ) by {
            assert(rest[i] == s[i + 1]);
        }
        lemma_squeezed_start(rest, n - 1);
        assert(rest.skip(n - 1) =~= s.skip(n));
        assert(!text::is_space(s[0]));
        assert(s.take(1) + (rest.take(n - 1) + squeezed(s.skip(n))) =~= s.take(n) + squeezed(s.skip(n)));
    }
}

/// Every token takes at least one character, and no more than there are.
proof fn lemma_first_token(s: Seq<char>)
    requires
        s.len() > 0,
    ensures
        first_token(s) matches Ok((t, n)) ==> 0 < n <= s.len(),
{
    lemma_quote_chars(s.skip(1), s[0]);
    lemma_word_chars(s);
}

/// The tokens of a text, written one after another, are the text without the white space outside its
/// quoted strings: nothing is dropped, added or put elsewhere. The result are the quotes to write them
/// with.
pub proof fn lemma_tokens_write_back(s: Seq<char>) -> (quotes: Seq<char>)
    requires
        tokens_from(Seq::empty(), s) is Ok,
    ensures
        quotes.len() == tokens_from(Seq::empty(), s)->Ok_0.len(),
        forall|i: int| 0 <= i < quotes.len() ==> is_quote(#[trigger] quotes[i]),
        written_all(tokens_from(Seq::empty(), s)->Ok_0, quotes) == squeezed(s),
    decreases s.len(),
{
    let none = Seq::<TokView>::empty();
    let toks = tokens_from(none, s)->Ok_0;
    if s.len() == 0 {
        assert(squeezed(s) =~= Seq::<char>::empty());
        Seq::empty()
    } else {
        lemma_first_token(s);
        let (t, n) = first_token(s)->Ok_0;
        let rest = s.skip(n as int);
        match t {
            None => lemma_tokens_write_back(rest),
            Some(t) => {
                lemma_tokens_before(none.push(t), rest);
                let later = lemma_tokens_write_back(rest);
                let more = tokens_from(none, rest)->Ok_0;
                assert(toks == none.push(t) + more);
                let q = if is_quote(s[0]) {
                    s[0]
                } else {
                    '"'
                };
                let quotes = seq![q] + later;
                assert forall|i: int| 0 <= i < quotes.len() implies is_quote(#[trigger] quotes[i]) by {
                    if i > 0 {
                        assert(quotes[i] == later[i - 1]);
                    }
                }
                assert(toks.skip(1) =~= more);
                assert(quotes.skip(1) =~= later);
                assert(toks[0] == t && quotes[0] == q);
                lemma_quote_chars(s.skip(1), s[0]);
                lemma_word_chars(s);
                if is_quote(s[0]) {
                    assert(s.skip(1)[n - 2] == s[n - 1]);
                    assert(written(t, q) =~= s.take(n as int));
                } else {
                    assert forall|i: int| 0 <= i < n implies !text::is_space(#[trigger] s[i])
                        && !is_quote(s[i]) by {
                        if !(s.len() >= 2 && is_pair(s[0], s[1])) && !is_mark(s[0]) {
                            assert(in_word(s, i));
                        }
                    }
                    lemma_squeezed_start(s, n as int);
                }
                quotes
            },
        }
    }
}

/// Place `p` of a text stands between two tokens, or in white space outside quoted strings, or at one
/// of the ends.
pub open spec fn between_tokens(s: Seq<char>, p: int) -> bool
    decreases s.len(),
{
    p == 0 || (s.len() > 0 && (match first_token(s) {
        Ok((_, n)) => 0 < n <= p && n <= s.len() && between_tokens(s.skip(n as int), p - n),
        Err(_) => false,
    }))
}

/// The text with `w` put in at place `p`.
pub open spec fn spread(s: Seq<char>, p: int, w: Seq<char>) -> Seq<char> {
    s.take(p) + w + s.skip(p)
}

proof fn lemma_leading_space(before: Seq<TokView>, w: Seq<char>, s: Seq<char>)
    requires
        forall|i: int| 0 <= i < w.len() ==> text::is_space(#[trigger] w[i]),
    ensures
        tokens_from(before, w + s) == tokens_from(before, s),
    decreases w.len(),
{
    if w.len() == 0 {
        assert(w + s =~= s);
    } else {
        let rest = w.skip(1);
        assert forall|i: int| 0 <= i < rest.len() implies text::is_space(#[trigger] rest[i]) by {
            assert(rest[i] == w[i + 1]);
        }
        lemma_leading_space(before, rest, s);
        assert((w + s)[0] == w[0] && text::is_space(w[0]));
        assert((w + s).skip(1) =~= rest + s);
    }
}

/// White space between two tokens, or more of it where there is some outside quoted strings, does not
/// change the tokens of a text.
pub proof fn lemma_more_space(before: Seq<TokView>, s: Seq<char>, p: int, w: Seq<char>)
    requires
        0 <= p <= s.len(),
        between_tokens(s, p),
        forall|i: int| 0 <= i < w.len() ==> text::is_space(#[trigger] w[i]),
    ensures
        tokens_from(before, spread(s, p, w)) == tokens_from(before, s),
    decreases s.len(),
{
    let wide = spread(s, p, w);
    if w.len() == 0 {
        assert(wide =~= s);
    } else if p == 0 {
        assert(wide =~= w + s);
        lemma_leading_space(before, w, s);
    } else {
        let (t, n) = first_token(s)->Ok_0;
        let c = s[0];
        assert(wide[0] == c);
        assert(wide[p] == w[0] && text::is_space(w[0]));
        assert forall|i: int| 0 <= i < p implies #[trigger] wide[i] == s[i] by {
        }
        assert(first_token(wide) == first_token(s)) by {
            if is_quote(c) && !text::is_space(c) {
                let k = quote_len(s.skip(1), c);
                lemma_quote_chars(s.skip(1), c);
                assert forall|i: int| 0 <= i < k implies #[trigger] wide.skip(1)[i] != c by {
                    assert(s.skip(1)[i] == wide.skip(1)[i]);
                }
                assert(wide.skip(1)[k as int] == s.skip(1)[k as int]);
                lemma_quote_len(wide.skip(1), c, k);
                assert(wide.subrange(1, k as int + 1) =~= s.subrange(1, k as int + 1));
            } else if !text::is_space(c) {
                assert(!is_pair(c, w[0]));
                assert(p >= 2 ==> wide[1] == s[1]);
                if !(s.len() >= 2 && is_pair(c, s[1])) && !is_mark(c) {
                    lemma_word_chars(s);
                    assert forall|i: int| 0 <= i < n implies #[trigger] in_word(wide, i) by {
                        assert(in_word(s, i));
                        if i + 1 < p {
                            assert(wide[i + 1] == s[i + 1]);
                        }
                    }
                    assert(!in_word(wide, n as int)) by {
                        if n < p {
                            assert(!in_word(s, n as int));
                            assert(wide[n as int] == s[n as int]);
                            if !ends_word(s[n as int]) {
                                let rest = s.skip(n as int);
                                assert(rest[0] == '!' && rest[1] == '=');
                                assert(first_token(rest) matches Ok((_, m)) && m == 2);
                                assert(between_tokens(rest, p - n));
                                assert(p - n >= 2);
                                assert(wide[n as int + 1] == s[n as int + 1]);
                                assert(rest[0] == s[n as int] && rest[1] == s[n as int + 1]);
                            }
                        }
                    }
                    lemma_word_len(wide, n);
                }
                assert(wide.take(n as int) =~= s.take(n as int));
            }
        }
        let rest = s.skip(n as int);
        let next = match t {
            Some(t) => before.push(t),
            None => before,
        };
        lemma_more_space(next, rest, p - n, w);
        assert(wide.skip(n as int) =~= spread(rest, p - n, w));
    }
}

fn mark(c: char) -> (r: bool)
    ensures
        r == is_mark(c),
{
    c == '=' || c == '<' || c == '>' || c == ',' || c == '(' || c == ')' || c == '*'
}

/// The token at a place of a text, and where it ends.
fn read_token(chars: &Vec<char>, at: usize) -> (r: Result<(Option<Tok>, usize), SqlError>)
    requires
        at < chars@.len(),
    ensures
        first_token(chars@.skip(at as int)) == (match r {
            Ok((t, end)) => Ok::<(Option<TokView>, nat), SqlErrorView>(
                (t.deep_view(), (end - at) as nat),
            ),
            Err(e) => Err(e.deep_view()),
        }),
        r matches Ok((_, end)) ==> at < end <= chars@.len(),
{
    let ghost s = chars@.skip(at as int);
    let n: usize = chars.len();
    let c: char = chars[at];
    assert(s[0] == c);
    if space(c) {
        return Ok((None, at + 1));
    }
    if c == '\'' || c == '"' {
        let mut i: usize = at + 1;
        while i < n && chars[i] != c
            invariant
                n == chars@.len(),
                at < i <= n,
                forall|j: int| at < j < i ==> #[trigger] chars@[j] != c,
            decreases n - i,
        {
            i = i + 1;
        }
        proof {
            assert forall|j: int| 0 <= j < i - at - 1 implies #[trigger] s.skip(1)[j] != c by {
                assert(s.skip(1)[j] == chars@[at + 1 + j]);
            }
            if i < n {
                assert(s.skip(1)[i - at - 1] == chars@[i as int]);
            }
            lemma_quote_len(s.skip(1), c, (i - at - 1) as nat);
        }
        if i >= n {
            return Err(SqlError::Unterminated);
        }
        proof {
            assert(s.subrange(1, i - at) =~= chars@.subrange(at + 1, i as int));
        }
        return Ok((Some(Tok::Str(slice_of(chars.as_slice(), at + 1, i))), i + 1));
    }
    if n - at >= 2 {
        let d: char = chars[at + 1];
        assert(s[1] == d);
        if (c == '<' && d == '=') || (c == '>' && d == '=') || (c == '!' && d == '=') || (c == '<' && d
            == '>') {
            proof {
                assert(s.take(2) =~= chars@.subrange(at as int, at + 2));
            }
            return Ok((Some(Tok::Word(slice_of(chars.as_slice(), at, at + 2))), at + 2));
        }
    }
    if mark(c) {
        proof {
            assert(s.take(1) =~= chars@.subrange(at as int, at + 1));
        }
        return Ok((Some(Tok::Word(slice_of(chars.as_slice(), at, at + 1))), at + 1));
    }
    let mut i: usize = at;
    while i < n && !(space(chars[i]) || mark(chars[i]) || chars[i] == '\'' || chars[i] == '"') && !(
    chars[i] == '!' && n - i >= 2 && chars[i + 1] == '=')
        invariant
            n == chars@.len(),
            at <= i <= n,
            forall|j: int| at <= j < i ==> #[trigger] in_word(chars@, j),
        decreases n - i,
    {
        assert(in_word(chars@, i as int));
        i = i + 1;
    }
    proof {
        assert forall|j: int| 0 <= j < i - at implies #[trigger] in_word(s, j) by {
            assert(in_word(chars@, at + j));
        }
        if i < n {
            assert(!in_word(chars@, i as int));
            assert(!in_word(s, i - at));
        }
        lemma_word_len(s, (i - at) as nat);
        assert(s.take(i - at) =~= chars@.subrange(at as int, i as int));
        assert(in_word(s, 0));
    }
    Ok((Some(Tok::Word(slice_of(chars.as_slice(), at, i))), i))
}

/// The tokens of a text.
pub fn tokenize(input: &str) -> (r: Result<Vec<Tok>, SqlError>)
    ensures
        tokens_from(Seq::empty(), input@) == (match r {
            Ok(t) => Ok::<Seq<TokView>, SqlErrorView>(t.deep_view()),
            Err(e) => Err(e.deep_view()),
        }),
{
    let chars: Vec<char> = chars_of(input);
    let mut toks: Vec<Tok> = Vec::new();
    let mut at: usize = 0;
    proof {
        assert(toks.deep_view() =~= Seq::<TokView>::empty());
        assert(chars@.skip(0) =~= chars@);
    }
    while at < chars.len()
        invariant
            at <= chars@.len(),
            chars@ == input@,
            tokens_from(toks.deep_view(), chars@.skip(at as int)) == tokens_from(
                Seq::empty(),
                input@,
            ),
        decreases chars@.len() - at,
    {
        let ghost here = chars@.skip(at as int);
        let ghost before = toks.deep_view();
        match read_token(&chars, at) {
            Ok((t, end)) => {
                proof {
                    assert(here.skip(end - at) =~= chars@.skip(end as int));
                }
                if let Some(tok) = t {
                    toks.push(tok);
                    proof {
                        assert(toks.deep_view() =~= before.push(tok.deep_view()));
                    }
                }
                at = end;
            },
            Err(e) => {
                return Err(e);
            },
        }
    }
    Ok(toks)
}

/// The token at a place, if there is one.
pub open spec fn token_at(toks: Seq<TokView>, pos: int) -> Option<TokView> {
    if 0 <= pos < toks.len() {
        Some(toks[pos])
    } else {
        None
    }
}

/// The token at a place is the keyword.
pub open spec fn is_kw(toks: Seq<TokView>, pos: int, kw: Seq<char>) -> bool {
    match token_at(toks, pos) {
        Some(TokView::Word(w)) => decimal::same_word(w, kw),
        _ => false,
    }
}

/// The token at a place is the mark.
pub open spec fn is_exactly(toks: Seq<TokView>, pos: int, w: Seq<char>) -> bool {
    token_at(toks, pos) == Some(TokView::Word(w))
}

/// A word that is neither a name nor a literal.
pub open spec fn is_operator(w: Seq<char>) -> bool {
    w == "="@ || w == "!="@ || w == "<>"@ || w == "<"@ || w == "<="@ || w == ">"@ || w == ">="@ || w
        == ","@ || w == "("@ || w == ")"@ || w == "*"@
}

/// The name at a place.
pub open spec fn name_at(toks: Seq<TokView>, pos: int) -> Option<Seq<char>> {
    match token_at(toks, pos) {
        Some(TokView::Word(w)) => if is_operator(w) {
            None
        } else {
            Some(w)
        },
        _ => None,
    }
}

/// An upper-case ASCII letter in place of a lower-case one.
pub open spec fn upper(c: char) -> char {
    if 97 <= c as u32 <= 122 {
        (c as u32 - 32) as u8 as char
    } else {
        c
    }
}

pub open spec fn upper_all(s: Seq<char>) -> Seq<char> {
    Seq::new(s.len(), |i: int| upper(s[i]))
}

/// The aggregate that a function with an argument is.
pub open spec fn aggregate(func: Seq<char>, arg: Seq<char>) -> Result<AggView, SqlErrorView> {
    if decimal::same_word(func, "COUNT"@) {
        Ok(AggView::Count)
    } else if decimal::same_word(func, "SUM"@) || decimal::same_word(func, "MIN"@)
        || decimal::same_word(func, "MAX"@) || decimal::same_word(func, "AVG"@) {
        if arg == "*"@ {
            Err(SqlErrorView::StarArgument)
        } else if decimal::same_word(func, "SUM"@) {
            Ok(AggView::Sum(arg))
        } else if decimal::same_word(func, "MIN"@) {
            Ok(AggView::Min(arg))
        } else if decimal::same_word(func, "MAX"@) {
            Ok(AggView::Max(arg))
        } else {
            Ok(AggView::Avg(arg))
        }
    } else {
        Err(SqlErrorView::UnknownFunction(upper_all(func)))
    }
}

/// The argument of an aggregate function at a place: a name, or `*`.
pub open spec fn argument_at(toks: Seq<TokView>, pos: int) -> Option<Seq<char>> {
    if is_exactly(toks, pos, "*"@) {
        Some("*"@)
    } else {
        name_at(toks, pos)
    }
}

/// The aggregate at a place, and the place after it.
pub open spec fn agg_at(toks: Seq<TokView>, pos: int) -> Result<(AggView, int), SqlErrorView> {
    match name_at(toks, pos) {
        None => Err(SqlErrorView::NoSelection),
        Some(func) => if !is_exactly(toks, pos + 1, "("@) {
            Err(SqlErrorView::Expected("("@, token_at(toks, pos + 1)))
        } else {
            match argument_at(toks, pos + 2) {
                Some(arg) => if !is_exactly(toks, pos + 3, ")"@) {
                    Err(SqlErrorView::Expected(")"@, token_at(toks, pos + 3)))
                } else {
                    match aggregate(func, arg) {
                        Ok(a) => Ok((a, pos + 4)),
                        Err(e) => Err(e),
                    }
                },
                None => Err(SqlErrorView::NoArgument(token_at(toks, pos + 2))),
            }
        },
    }
}

/// The aggregates from a place on, a comma between two, after those of `before`.
pub open spec fn aggs_at(before: Seq<AggView>, toks: Seq<TokView>, pos: int) -> Result<
    (Seq<AggView>, int),
    SqlErrorView,
>
    decreases toks.len() - pos,
{
    match agg_at(toks, pos) {
        Err(e) => Err(e),
        Ok((a, p)) => if pos <= p && 0 <= pos && is_exactly(toks, p, ","@) {
            aggs_at(before.push(a), toks, p + 1)
        } else {
            Ok((before.push(a), p))
        },
    }
}

/// The names from a place on, a comma between two, after those of `before`.
pub open spec fn names_at(
    before: Seq<Seq<char>>,
    toks: Seq<TokView>,
    pos: int,
    missing: SqlErrorView,
) -> Result<(Seq<Seq<char>>, int), SqlErrorView>
    decreases toks.len() - pos,
{
    match name_at(toks, pos) {
        None => Err(missing),
        Some(w) => if is_exactly(toks, pos + 1, ","@) {
            names_at(before.push(w), toks, pos + 2, missing)
        } else {
            Ok((before.push(w), pos + 1))
        },
    }
}

/// The comparison operator that a word is.
pub open spec fn operator(w: Seq<char>) -> Option<CmpOp> {
    if w == "="@ {
        Some(CmpOp::Eq)
    } else if w == "!="@ || w == "<>"@ {
        Some(CmpOp::Ne)
    } else if w == "<"@ {
        Some(CmpOp::Lt)
    } else if w == "<="@ {
        Some(CmpOp::Le)
    } else if w == ">"@ {
        Some(CmpOp::Gt)
    } else if w == ">="@ {
        Some(CmpOp::Ge)
    } else {
        None
    }
}

/// The value that a word is: true, false, null, a finite number, or itself.
pub open spec fn literal(w: Seq<char>) -> JsonView {
    if decimal::same_word(w, "true"@) {
        JsonView::Bool(true)
    } else if decimal::same_word(w, "false"@) {
        JsonView::Bool(false)
    } else if decimal::same_word(w, "null"@) {
        JsonView::Null
    } else if decimal::integer_of(w) is Some && i64::MIN <= decimal::integer_of(w)->0 <= i64::MAX {
        JsonView::Number(Num::Int(decimal::integer_of(w)->0 as i128))
    } else {
        match decimal::float_of(w) {
            Some(f) => if f.mag() < float::INFINITE {
                JsonView::Number(Num::Float(f))
            } else {
                JsonView::String(w)
            },
            None => JsonView::String(w),
        }
    }
}

/// The comparison at a place, and the place after it.
pub open spec fn comparison_at(toks: Seq<TokView>, pos: int) -> Result<
    (PredicateView, int),
    SqlErrorView,
> {
    match name_at(toks, pos) {
        None => Err(SqlErrorView::NoField),
        Some(field) => match token_at(toks, pos + 1) {
            Some(TokView::Word(w)) => match operator(w) {
                None => Err(SqlErrorView::UnknownOperator(w)),
                Some(op) => match token_at(toks, pos + 2) {
                    None => Err(SqlErrorView::NoLiteral),
                    Some(TokView::Str(s)) => Ok(
                        (PredicateView::Cmp { field, op, value: JsonView::String(s) }, pos + 3),
                    ),
                    Some(TokView::Word(v)) => if is_operator(v) {
                        Err(SqlErrorView::NoLiteral)
                    } else {
                        Ok((PredicateView::Cmp { field, op, value: literal(v) }, pos + 3))
                    },
                },
            },
            other => Err(SqlErrorView::NoOperator(other)),
        },
    }
}

/// The term at a place, and the place after it.
pub open spec fn term_at(toks: Seq<TokView>, pos: int) -> Result<(PredicateView, int), SqlErrorView> {
    if is_kw(toks, pos, "NOT"@) {
        match comparison_at(toks, pos + 1) {
            Ok((p, end)) => Ok((PredicateView::Not(Box::new(p)), end)),
            Err(e) => Err(e),
        }
    } else {
        comparison_at(toks, pos)
    }
}

/// The condition that goes on from `left` at a place, and the place after it.
pub open spec fn condition_at(left: PredicateView, toks: Seq<TokView>, pos: int) -> Result<
    (PredicateView, int),
    SqlErrorView,
>
    decreases toks.len() - pos,
{
    let and = is_kw(toks, pos, "AND"@);
    if and || is_kw(toks, pos, "OR"@) {
        match term_at(toks, pos + 1) {
            Err(e) => Err(e),
            Ok((right, p)) => {
                let both = if and {
                    PredicateView::And(Box::new(left), Box::new(right))
                } else {
                    PredicateView::Or(Box::new(left), Box::new(right))
                };
                if pos < p {
                    condition_at(both, toks, p)
                } else {
                    Ok((both, p))
                }
            },
        }
    } else {
        Ok((left, pos))
    }
}


/// What a query selects: aggregates, or columns, none standing for all.
pub enum SelectionView {
    Aggregates(Seq<AggView>),
    Columns(Seq<Seq<char>>),
}

/// The selection at a place, and the place after it.
pub open spec fn selection_at(toks: Seq<TokView>, pos: int) -> Result<
    (SelectionView, int),
    SqlErrorView,
> {
    if is_exactly(toks, pos, "*"@) {
        Ok((SelectionView::Columns(Seq::empty()), pos + 1))
    } else if is_exactly(toks, pos + 1, "("@) {
        match aggs_at(Seq::empty(), toks, pos) {
            Ok((a, p)) => Ok((SelectionView::Aggregates(a), p)),
            Err(e) => Err(e),
        }
    } else {
        match names_at(Seq::empty(), toks, pos, SqlErrorView::NoSelection) {
            Ok((c, p)) => Ok((SelectionView::Columns(c), p)),
            Err(e) => Err(e),
        }
    }
}

/// The condition at a place, if there is one, and the place after it.
pub open spec fn where_at(toks: Seq<TokView>, pos: int) -> Result<(PredicateView, int), SqlErrorView> {
    if is_kw(toks, pos, "WHERE"@) {
        match term_at(toks, pos + 1) {
            Ok((p, end)) => condition_at(p, toks, end),
            Err(e) => Err(e),
        }
    } else {
        Ok((PredicateView::True, pos))
    }
}

/// The columns to group by at a place, if there are any, and the place after them.
pub open spec fn group_at(toks: Seq<TokView>, pos: int) -> Result<(Seq<Seq<char>>, int), SqlErrorView> {
    if !is_kw(toks, pos, "GROUP"@) {
        Ok((Seq::empty(), pos))
    } else if !is_kw(toks, pos + 1, "BY"@) {
        Err(SqlErrorView::Expected("BY"@, token_at(toks, pos + 1)))
    } else {
        names_at(Seq::empty(), toks, pos + 2, SqlErrorView::NoColumn("GROUP BY"@))
    }
}

/// The columns to sort by from a place on, a comma between two, after those of `before`.
pub open spec fn order_keys_at(before: Seq<OrderKeyView>, toks: Seq<TokView>, pos: int) -> Result<
    (Seq<OrderKeyView>, int),
    SqlErrorView,
>
    decreases toks.len() - pos,
{
    match name_at(toks, pos) {
        None => Err(SqlErrorView::NoColumn("ORDER BY"@)),
        Some(column) => {
            let desc = is_kw(toks, pos + 1, "DESC"@);
            let dir = if desc {
                OrderDir::Desc
            } else {
                OrderDir::Asc
            };
            let p = if desc || is_kw(toks, pos + 1, "ASC"@) {
                pos + 2
            } else {
                pos + 1
            };
            let keys = before.push(OrderKeyView { column, dir });
            if is_exactly(toks, p, ","@) {
                order_keys_at(keys, toks, p + 1)
            } else {
                Ok((keys, p))
            }
        },
    }
}

/// The columns to sort by at a place, if there are any, and the place after them.
pub open spec fn order_at(toks: Seq<TokView>, pos: int) -> Result<
    (Seq<OrderKeyView>, int),
    SqlErrorView,
> {
    if !is_kw(toks, pos, "ORDER"@) {
        Ok((Seq::empty(), pos))
    } else if !is_kw(toks, pos + 1, "BY"@) {
        Err(SqlErrorView::Expected("BY"@, token_at(toks, pos + 1)))
    } else {
        order_keys_at(Seq::empty(), toks, pos + 2)
    }
}

/// The number of rows that a word is.
pub open spec fn row_count(w: Seq<char>) -> Option<usize> {
    match decimal::integer_of(w) {
        Some(n) => if !decimal::is_minus(w) && n <= usize::MAX {
            Some(n as usize)
        } else {
            None
        },
        None => None,
    }
}

/// The limit at a place, if there is one, and the place after it.
pub open spec fn limit_at(toks: Seq<TokView>, pos: int) -> Result<(Option<usize>, int), SqlErrorView> {
    if !is_kw(toks, pos, "LIMIT"@) {
        Ok((None, pos))
    } else {
        match token_at(toks, pos + 1) {
            Some(TokView::Word(w)) => match row_count(w) {
                Some(n) => Ok((Some(n), pos + 2)),
                None => Err(SqlErrorView::BadLimit(token_at(toks, pos + 1))),
            },
            other => Err(SqlErrorView::BadLimit(other)),
        }
    }
}

/// What follows the dataset name.
pub open spec fn clauses_at(q: QueryView, toks: Seq<TokView>, pos: int) -> Result<
    (QueryView, int),
    SqlErrorView,
> {
    match where_at(toks, pos) {
        Err(e) => Err(e),
        Ok((predicate, p1)) => match group_at(toks, p1) {
            Err(e) => Err(e),
            Ok((group_by, p2)) => match order_at(toks, p2) {
                Err(e) => Err(e),
                Ok((order_by, p3)) => match limit_at(toks, p3) {
                    Err(e) => Err(e),
                    Ok((limit, p4)) => Ok(
                        (QueryView { predicate, group_by, order_by, limit, ..q }, p4),
                    ),
                },
            },
        },
    }
}

/// A query for a selection from a dataset, without conditions.
pub open spec fn bare(dataset: Seq<char>, selection: SelectionView) -> QueryView {
    QueryView {
        dataset,
        aggregates: match selection {
            SelectionView::Aggregates(a) => a,
            SelectionView::Columns(_) => Seq::empty(),
        },
        predicate: PredicateView::True,
        group_by: Seq::empty(),
        order_by: Seq::empty(),
        limit: None,
        projection: match selection {
            SelectionView::Aggregates(_) => None,
            SelectionView::Columns(c) => Some(c),
        },
    }
}

/// The query that tokens make up, and the place after it.
pub open spec fn query_at(toks: Seq<TokView>) -> Result<(QueryView, int), SqlErrorView> {
    if !is_kw(toks, 0, "SELECT"@) {
        Err(SqlErrorView::Expected("SELECT"@, token_at(toks, 0)))
    } else {
        match selection_at(toks, 1) {
            Err(e) => Err(e),
            Ok((selection, p)) => if !is_kw(toks, p, "FROM"@) {
                Err(SqlErrorView::Expected("FROM"@, token_at(toks, p)))
            } else {
                match name_at(toks, p + 1) {
                    None => Err(SqlErrorView::NoDataset),
                    Some(dataset) => clauses_at(bare(dataset, selection), toks, p + 2),
                }
            },
        }
    }
}

/// The query that a text is.
pub open spec fn parsed(input: Seq<char>) -> Result<QueryView, SqlErrorView> {
    match tokens_from(Seq::empty(), input) {
        Err(e) => Err(e),
        Ok(toks) => match query_at(toks) {
            Err(e) => Err(e),
            Ok((q, p)) => if p < toks.len() {
                Err(
                    SqlErrorView::Trailing(
                        match toks[p] {
                            TokView::Word(w) => w,
                            TokView::Str(_) => "<eof>"@,
                        },
                    ),
                )
            } else {
                match q.validity() {
                    Ok(()) => Ok(q),
                    Err(e) => Err(SqlErrorView::Invalid(e)),
                }
            },
        },
    }
}

/// The token at a place, if there is one.
fn token(toks: &Vec<Tok>, pos: u128) -> (r: Option<Tok>)
    ensures
        r.deep_view() == token_at(toks.deep_view(), pos as int),
{
    if pos < toks.len() as u128 {
        Some(toks[pos as usize].duplicate())
    } else {
        None
    }
}

/// Whether the token at a place is the keyword.
fn kw(toks: &Vec<Tok>, pos: u128, word: &str) -> (r: bool)
    ensures
        r == is_kw(toks.deep_view(), pos as int, word@),
        r ==> pos < toks@.len() && pos < usize::MAX,
{
    if pos >= toks.len() as u128 {
        return false;
    }
    match &toks[pos as usize] {
        Tok::Word(w) => {
            let chars: Vec<char> = chars_of(w.as_str());
            proof {
                assert(chars@.skip(0) =~= chars@);
            }
            is_word(chars.as_slice(), 0, word)
        },
        Tok::Str(_) => false,
    }
}

/// Whether the token at a place is the mark.
fn exactly(toks: &Vec<Tok>, pos: u128, word: &str) -> (r: bool)
    ensures
        r == is_exactly(toks.deep_view(), pos as int, word@),
        r ==> pos < toks@.len() && pos < usize::MAX,
{
    if pos >= toks.len() as u128 {
        return false;
    }
    match &toks[pos as usize] {
        Tok::Word(w) => equal(w.as_str(), word),
        Tok::Str(_) => false,
    }
}

/// Whether a word is neither a name nor a literal.
fn operator_word(w: &str) -> (r: bool)
    ensures
        r == is_operator(w@),
{
    equal(w, "=") || equal(w, "!=") || equal(w, "<>") || equal(w, "<") || equal(w, "<=") || equal(
        w,
        ">",
    ) || equal(w, ">=") || equal(w, ",") || equal(w, "(") || equal(w, ")") || equal(w, "*")
}

/// The name at a place.
fn name(toks: &Vec<Tok>, pos: u128) -> (r: Option<String>)
    ensures
        r.deep_view() == name_at(toks.deep_view(), pos as int),
        r is Some ==> pos < toks@.len() && pos < usize::MAX,
{
    if pos >= toks.len() as u128 {
        return None;
    }
    match &toks[pos as usize] {
        Tok::Word(w) => {
            if operator_word(w.as_str()) {
                None
            } else {
                Some(w.clone())
            }
        },
        Tok::Str(_) => None,
    }
}

/// The word at a place.
fn word(toks: &Vec<Tok>, pos: u128) -> (r: Option<String>)
    ensures
        r is Some <==> token_at(toks.deep_view(), pos as int) matches Some(TokView::Word(_)),
        r is Some ==> pos < toks@.len() && pos < usize::MAX,
        r matches Some(w) ==> token_at(toks.deep_view(), pos as int) == Some(
            TokView::Word(w@),
        ),
{
    if pos >= toks.len() as u128 {
        return None;
    }
    match &toks[pos as usize] {
        Tok::Word(w) => Some(w.clone()),
        Tok::Str(_) => None,
    }
}

/// A word in upper case.
fn to_upper(w: &str) -> (r: String)
    ensures
        r@ == upper_all(w@),
{
    let chars: Vec<char> = chars_of(w);
    let mut out: String = String::new();
    let mut i: usize = 0;
    while i < chars.len()
        invariant
            i <= chars@.len(),
            chars@ == w@,
            out@ == upper_all(w@).take(i as int),
        decreases chars@.len() - i,
    {
        let c: char = chars[i];
        let code: u32 = c as u32;
        let d: char = if 97 <= code && code <= 122 {
            (code as u8 - 32) as char
        } else {
            c
        };
        out.push(d);
        proof {
            assert(upper_all(w@).take(i + 1) =~= upper_all(w@).take(i as int).push(d));
        }
        i = i + 1;
    }
    proof {
        assert(upper_all(w@).take(w@.len() as int) =~= upper_all(w@));
    }
    out
}

/// Whether a string is a word, whatever the case of its letters.
fn same(w: &str, other: &str) -> (r: bool)
    ensures
        r == decimal::same_word(w@, other@),
{
    let chars: Vec<char> = chars_of(w);
    proof {
        assert(chars@.skip(0) =~= chars@);
    }
    is_word(chars.as_slice(), 0, other)
}

/// The aggregate that a function with an argument is.
fn make_aggregate(func: &str, arg: String) -> (r: Result<Agg, SqlError>)
    ensures
        aggregate(func@, arg@) == (match r {
            Ok(a) => Ok::<AggView, SqlErrorView>(a.deep_view()),
            Err(e) => Err(e.deep_view()),
        }),
{
    if same(func, "COUNT") {
        return Ok(Agg::Count);
    }
    let sum: bool = same(func, "SUM");
    let min: bool = same(func, "MIN");
    let max: bool = same(func, "MAX");
    let avg: bool = same(func, "AVG");
    if !(sum || min || max || avg) {
        return Err(SqlError::UnknownFunction(to_upper(func)));
    }
    if equal(arg.as_str(), "*") {
        return Err(SqlError::StarArgument);
    }
    if sum {
        Ok(Agg::Sum(arg))
    } else if min {
        Ok(Agg::Min(arg))
    } else if max {
        Ok(Agg::Max(arg))
    } else {
        Ok(Agg::Avg(arg))
    }
}

/// The aggregate at a place, and the place after it.
fn parse_agg(toks: &Vec<Tok>, pos: u128) -> (r: Result<(Agg, u128), SqlError>)
    ensures
        agg_at(toks.deep_view(), pos as int) == (match r {
            Ok((a, p)) => Ok::<(AggView, int), SqlErrorView>((a.deep_view(), p as int)),
            Err(e) => Err(e.deep_view()),
        }),
        r matches Ok((_, p)) ==> pos < p <= toks@.len(),
{
    let func: String = match name(toks, pos) {
        Some(w) => w,
        None => {
            return Err(SqlError::NoSelection);
        },
    };
    if !exactly(toks, pos + 1, "(") {
        return Err(SqlError::Expected("(".to_owned(), token(toks, pos + 1)));
    }
    let arg: String = if exactly(toks, pos + 2, "*") {
        "*".to_owned()
    } else {
        match name(toks, pos + 2) {
            Some(w) => w,
            None => {
                return Err(SqlError::NoArgument(token(toks, pos + 2)));
            },
        }
    };
    if !exactly(toks, pos + 3, ")") {
        return Err(SqlError::Expected(")".to_owned(), token(toks, pos + 3)));
    }
    match make_aggregate(func.as_str(), arg) {
        Ok(a) => Ok((a, pos + 4)),
        Err(e) => Err(e),
    }
}

/// The aggregates from a place on.
fn parse_aggs(toks: &Vec<Tok>, pos: u128) -> (r: Result<(Vec<Agg>, u128), SqlError>)
    ensures
        aggs_at(Seq::empty(), toks.deep_view(), pos as int) == (match r {
            Ok((a, p)) => Ok::<(Seq<AggView>, int), SqlErrorView>((a.deep_view(), p as int)),
            Err(e) => Err(e.deep_view()),
        }),
        r matches Ok((_, p)) ==> p <= toks@.len(),
{
    let ghost all = toks.deep_view();
    let mut aggs: Vec<Agg> = Vec::new();
    let mut at: u128 = pos;
    proof {
        assert(aggs.deep_view() =~= Seq::<AggView>::empty());
    }
    loop
        invariant
            all == toks.deep_view(),
            aggs_at(aggs.deep_view(), all, at as int) == aggs_at(Seq::empty(), all, pos as int),
        decreases toks@.len() + 1 - at,
    {
        let ghost before = aggs.deep_view();
        match parse_agg(toks, at) {
            Ok((a, p)) => {
                let ghost added = a.deep_view();
                aggs.push(a);
                proof {
                    assert(aggs.deep_view() =~= before.push(added));
                }
                if exactly(toks, p, ",") {
                    at = p + 1;
                } else {
                    return Ok((aggs, p));
                }
            },
            Err(e) => {
                return Err(e);
            },
        }
    }
}

/// The names from a place on; `missing` is the error where there is none.
fn parse_names(toks: &Vec<Tok>, pos: u128, missing: SqlError) -> (r: Result<
    (Vec<String>, u128),
    SqlError,
>)
    ensures
        names_at(Seq::empty(), toks.deep_view(), pos as int, missing.deep_view()) == (match r {
            Ok((a, p)) => Ok::<(Seq<Seq<char>>, int), SqlErrorView>((a.deep_view(), p as int)),
            Err(e) => Err(e.deep_view()),
        }),
        r matches Ok((_, p)) ==> p <= toks@.len(),
{
    let ghost all = toks.deep_view();
    let ghost none = missing.deep_view();
    let mut names: Vec<String> = Vec::new();
    let mut at: u128 = pos;
    proof {
        assert(names.deep_view() =~= Seq::<Seq<char>>::empty());
    }
    loop
        invariant
            all == toks.deep_view(),
            none == missing.deep_view(),
            names_at(names.deep_view(), all, at as int, none) == names_at(
                Seq::empty(),
                all,
                pos as int,
                none,
            ),
        decreases toks@.len() + 1 - at,
    {
        let ghost before = names.deep_view();
        match name(toks, at) {
            Some(w) => {
                let ghost added = w@;
                names.push(w);
                proof {
                    assert(names.deep_view() =~= before.push(added));
                }
                if exactly(toks, at + 1, ",") {
                    at = at + 2;
                } else {
                    return Ok((names, at + 1));
                }
            },
            None => {
                return Err(missing);
            },
        }
    }
}

/// The comparison operator that a word is.
fn parse_operator(w: &str) -> (r: Option<CmpOp>)
    ensures
        r == operator(w@),
{
    if equal(w, "=") {
        Some(CmpOp::Eq)
    } else if equal(w, "!=") || equal(w, "<>") {
        Some(CmpOp::Ne)
    } else if equal(w, "<") {
        Some(CmpOp::Lt)
    } else if equal(w, "<=") {
        Some(CmpOp::Le)
    } else if equal(w, ">") {
        Some(CmpOp::Gt)
    } else if equal(w, ">=") {
        Some(CmpOp::Ge)
    } else {
        None
    }
}

/// The value that a word is.
fn literal_from_word(w: &str) -> (r: Json)
    ensures
        r.deep_view() == literal(w@),
{
    if same(w, "true") {
        return Json::Bool(true);
    }
    if same(w, "false") {
        return Json::Bool(false);
    }
    if same(w, "null") {
        return Json::Null;
    }
    let chars: Vec<char> = chars_of(w);
    if let Some(n) = read_integer(chars.as_slice()) {
        if -0x8000_0000_0000_0000 <= n && n <= 0x7fff_ffff_ffff_ffff {
            return Json::Number(Num::Int(n));
        }
    }
    match read_float(chars.as_slice()) {
        Some(f) => {
            if f.is_finite() {
                Json::Number(Num::Float(f))
            } else {
                Json::String(w.to_owned())
            }
        },
        None => Json::String(w.to_owned()),
    }
}

/// The comparison at a place, and the place after it.
fn parse_comparison(toks: &Vec<Tok>, pos: u128) -> (r: Result<(Predicate, u128), SqlError>)
    ensures
        comparison_at(toks.deep_view(), pos as int) == (match r {
            Ok((a, p)) => Ok::<(PredicateView, int), SqlErrorView>((a.deep_view(), p as int)),
            Err(e) => Err(e.deep_view()),
        }),
        r matches Ok((_, p)) ==> pos < p <= toks@.len(),
{
    let field: String = match name(toks, pos) {
        Some(w) => w,
        None => {
            return Err(SqlError::NoField);
        },
    };
    let op: CmpOp = match word(toks, pos + 1) {
        Some(w) => match parse_operator(w.as_str()) {
            Some(op) => op,
            None => {
                return Err(SqlError::UnknownOperator(w));
            },
        },
        None => {
            return Err(SqlError::NoOperator(token(toks, pos + 1)));
        },
    };
    match token(toks, pos + 2) {
        Some(Tok::Str(s)) => Ok((Predicate::Cmp { field, op, value: Json::String(s) }, pos + 3)),
        Some(Tok::Word(w)) => {
            if operator_word(w.as_str()) {
                return Err(SqlError::NoLiteral);
            }
            let value: Json = literal_from_word(w.as_str());
            Ok((Predicate::Cmp { field, op, value }, pos + 3))
        },
        None => Err(SqlError::NoLiteral),
    }
}

/// The term at a place, and the place after it.
fn parse_term(toks: &Vec<Tok>, pos: u128) -> (r: Result<(Predicate, u128), SqlError>)
    ensures
        term_at(toks.deep_view(), pos as int) == (match r {
            Ok((a, p)) => Ok::<(PredicateView, int), SqlErrorView>((a.deep_view(), p as int)),
            Err(e) => Err(e.deep_view()),
        }),
        r matches Ok((_, p)) ==> pos < p <= toks@.len(),
{
    if kw(toks, pos, "NOT") {
        match parse_comparison(toks, pos + 1) {
            Ok((p, end)) => Ok((Predicate::Not(Box::new(p)), end)),
            Err(e) => Err(e),
        }
    } else {
        parse_comparison(toks, pos)
    }
}

/// The condition at a place, if there is one, and the place after it.
fn parse_where(toks: &Vec<Tok>, pos: u128) -> (r: Result<(Predicate, u128), SqlError>)
    requires
        pos <= toks@.len(),
    ensures
        where_at(toks.deep_view(), pos as int) == (match r {
            Ok((a, p)) => Ok::<(PredicateView, int), SqlErrorView>((a.deep_view(), p as int)),
            Err(e) => Err(e.deep_view()),
        }),
        r matches Ok((_, p)) ==> p <= toks@.len(),
{
    if !kw(toks, pos, "WHERE") {
        return Ok((Predicate::True, pos));
    }
    let ghost all = toks.deep_view();
    let (mut left, mut at): (Predicate, u128) = match parse_term(toks, pos + 1) {
        Ok(r) => r,
        Err(e) => {
            return Err(e);
        },
    };
    loop
        invariant
            all == toks.deep_view(),
            at <= toks@.len(),
            condition_at(left.deep_view(), all, at as int) == where_at(all, pos as int),
        decreases toks@.len() - at,
    {
        let and: bool = kw(toks, at, "AND");
        if !and && !kw(toks, at, "OR") {
            return Ok((left, at));
        }
        match parse_term(toks, at + 1) {
            Ok((right, p)) => {
                left = if and {
                    Predicate::And(Box::new(left), Box::new(right))
                } else {
                    Predicate::Or(Box::new(left), Box::new(right))
                };
                at = p;
            },
            Err(e) => {
                return Err(e);
            },
        }
    }
}

/// The columns to group by at a place, if there are any, and the place after them.
fn parse_group(toks: &Vec<Tok>, pos: u128) -> (r: Result<(Vec<String>, u128), SqlError>)
    requires
        pos <= toks@.len(),
    ensures
        group_at(toks.deep_view(), pos as int) == (match r {
            Ok((a, p)) => Ok::<(Seq<Seq<char>>, int), SqlErrorView>((a.deep_view(), p as int)),
            Err(e) => Err(e.deep_view()),
        }),
        r matches Ok((_, p)) ==> p <= toks@.len(),
{
    if !kw(toks, pos, "GROUP") {
        let none: Vec<String> = Vec::new();
        proof {
            assert(none.deep_view() =~= Seq::<Seq<char>>::empty());
        }
        return Ok((none, pos));
    }
    if !kw(toks, pos + 1, "BY") {
        return Err(SqlError::Expected("BY".to_owned(), token(toks, pos + 1)));
    }
    parse_names(toks, pos + 2, SqlError::NoColumn("GROUP BY".to_owned()))
}

/// The columns to sort by at a place, if there are any, and the place after them.
fn parse_order(toks: &Vec<Tok>, pos: u128) -> (r: Result<(Vec<OrderKey>, u128), SqlError>)
    requires
        pos <= toks@.len(),
    ensures
        order_at(toks.deep_view(), pos as int) == (match r {
            Ok((a, p)) => Ok::<(Seq<OrderKeyView>, int), SqlErrorView>((a.deep_view(), p as int)),
            Err(e) => Err(e.deep_view()),
        }),
        r matches Ok((_, p)) ==> p <= toks@.len(),
{
    let ghost all = toks.deep_view();
    let mut keys: Vec<OrderKey> = Vec::new();
    proof {
        assert(keys.deep_view() =~= Seq::<OrderKeyView>::empty());
    }
    if !kw(toks, pos, "ORDER") {
        return Ok((keys, pos));
    }
    if !kw(toks, pos + 1, "BY") {
        return Err(SqlError::Expected("BY".to_owned(), token(toks, pos + 1)));
    }
    let mut at: u128 = pos + 2;
    loop
        invariant
            all == toks.deep_view(),
            order_keys_at(keys.deep_view(), all, at as int) == order_at(all, pos as int),
        decreases toks@.len() + 1 - at,
    {
        let ghost before = keys.deep_view();
        match name(toks, at) {
            Some(column) => {
                let desc: bool = kw(toks, at + 1, "DESC");
                let asc: bool = kw(toks, at + 1, "ASC");
                let dir: OrderDir = if desc {
                    OrderDir::Desc
                } else {
                    OrderDir::Asc
                };
                let key: OrderKey = OrderKey { column, dir };
                let ghost added = key.deep_view();
                keys.push(key);
                proof {
                    assert(keys.deep_view() =~= before.push(added));
                }
                let p: u128 = if desc || asc {
                    at + 2
                } else {
                    at + 1
                };
                if exactly(toks, p, ",") {
                    at = p + 1;
                } else {
                    return Ok((keys, p));
                }
            },
            None => {
                return Err(SqlError::NoColumn("ORDER BY".to_owned()));
            },
        }
    }
}

/// The limit at a place, if there is one, and the place after it.
fn parse_limit(toks: &Vec<Tok>, pos: u128) -> (r: Result<(Option<usize>, u128), SqlError>)
    requires
        pos <= toks@.len(),
    ensures
        limit_at(toks.deep_view(), pos as int) == (match r {
            Ok((a, p)) => Ok::<(Option<usize>, int), SqlErrorView>((a, p as int)),
            Err(e) => Err(e.deep_view()),
        }),
        r matches Ok((_, p)) ==> p <= toks@.len(),
{
    if !kw(toks, pos, "LIMIT") {
        return Ok((None, pos));
    }
    match word(toks, pos + 1) {
        Some(w) => {
            let chars: Vec<char> = chars_of(w.as_str());
            let minus: bool = chars.len() > 0 && chars[0] == '-';
            if let Some(n) = read_integer(chars.as_slice()) {
                if !minus && 0 <= n && n <= usize::MAX as i128 {
                    return Ok((Some(n as usize), pos + 2));
                }
            }
            Err(SqlError::BadLimit(token(toks, pos + 1)))
        },
        None => Err(SqlError::BadLimit(token(toks, pos + 1))),
    }
}

/// The query that tokens make up, and the place after it.
fn parse_query(toks: &Vec<Tok>) -> (r: Result<(Query, u128), SqlError>)
    ensures
        query_at(toks.deep_view()) == (match r {
            Ok((a, p)) => Ok::<(QueryView, int), SqlErrorView>((a.deep_view(), p as int)),
            Err(e) => Err(e.deep_view()),
        }),
        r matches Ok((_, p)) ==> p <= toks@.len(),
{
    if !kw(toks, 0, "SELECT") {
        return Err(SqlError::Expected("SELECT".to_owned(), token(toks, 0)));
    }
    let mut aggregates: Vec<Agg> = Vec::new();
    let mut columns: Option<Vec<String>> = None;
    let p: u128;
    proof {
        assert(aggregates.deep_view() =~= Seq::<AggView>::empty());
    }
    if exactly(toks, 1, "*") {
        let all: Vec<String> = Vec::new();
        proof {
            assert(all.deep_view() =~= Seq::<Seq<char>>::empty());
        }
        columns = Some(all);
        p = 2;
    } else if exactly(toks, 2, "(") {
        match parse_aggs(toks, 1) {
            Ok((a, end)) => {
                aggregates = a;
                p = end;
            },
            Err(e) => {
                return Err(e);
            },
        }
    } else {
        match parse_names(toks, 1, SqlError::NoSelection) {
            Ok((c, end)) => {
                columns = Some(c);
                p = end;
            },
            Err(e) => {
                return Err(e);
            },
        }
    }
    if !kw(toks, p, "FROM") {
        return Err(SqlError::Expected("FROM".to_owned(), token(toks, p)));
    }
    let dataset: String = match name(toks, p + 1) {
        Some(w) => w,
        None => {
            return Err(SqlError::NoDataset);
        },
    };
    let (predicate, p1): (Predicate, u128) = match parse_where(toks, p + 2) {
        Ok(r) => r,
        Err(e) => {
            return Err(e);
        },
    };
    let (group_by, p2): (Vec<String>, u128) = match parse_group(toks, p1) {
        Ok(r) => r,
        Err(e) => {
            return Err(e);
        },
    };
    let (order_by, p3): (Vec<OrderKey>, u128) = match parse_order(toks, p2) {
        Ok(r) => r,
        Err(e) => {
            return Err(e);
        },
    };
    match parse_limit(toks, p3) {
        Ok((limit, p4)) => Ok(
            (
                Query {
                    dataset,
                    aggregates,
                    predicate,
                    group_by,
                    order_by,
                    limit,
                    projection: columns,
                },
                p4,
            ),
        ),
        Err(e) => Err(e),
    }
}

/// The query that a text is.
pub fn parse(input: &str) -> (r: Result<Query, SqlError>)
    ensures
        parsed(input@) == (match r {
            Ok(q) => Ok::<QueryView, SqlErrorView>(q.deep_view()),
            Err(e) => Err(e.deep_view()),
        }),
        r matches Ok(q) ==> q.deep_view().validity() is Ok,
{
    let toks: Vec<Tok> = match tokenize(input) {
        Ok(t) => t,
        Err(e) => {
            return Err(e);
        },
    };
    let (query, p): (Query, u128) = match parse_query(&toks) {
        Ok(r) => r,
        Err(e) => {
            return Err(e);
        },
    };
    if p < toks.len() as u128 {
        assert(toks.deep_view()[p as int] == toks@[p as int].deep_view());
        let near: String = match &toks[p as usize] {
            Tok::Word(w) => w.clone(),
            Tok::Str(_) => "<eof>".to_owned(),
        };
        return Err(SqlError::Trailing(near));
    }
    match query.validate() {
        Ok(()) => Ok(query),
        Err(e) => Err(SqlError::Invalid(e)),
    }
}

/// A string as it is written for debugging, quoted and escaped.
pub uninterp spec fn debug_text(s: Seq<char>) -> Seq<char>;

/// The `Debug` form of a `str`, which depends on the string alone. Not stated: which characters are
/// escaped, and how.
#[verifier::external_body]
fn write_debug(s: &str) -> (r: String)
    ensures
        r@ == debug_text(s@),
{
    format!("{:?}", s)
}

/// A token that was found, in words.
pub open spec fn found(t: Option<TokView>) -> Seq<char> {
    match t {
        None => "None"@,
        Some(TokView::Word(w)) => token_words(false, debug_text(w)),
        Some(TokView::Str(w)) => token_words(true, debug_text(w)),
    }
}

/// A string between two others.
fn between(a: &str, b: &str, c: &str) -> (r: String)
    ensures
        r@ == text::glued(seq![a@, b@, c@]),
{
    let parts: Vec<String> = vec![a.to_owned(), b.to_owned(), c.to_owned()];
    proof {
        assert(parts.deep_view() =~= seq![a@, b@, c@]);
    }
    glue(&parts)
}

/// A token in words; `debug` is its text as it is written for debugging.
pub open spec fn token_words(quoted: bool, debug: Seq<char>) -> Seq<char> {
    if quoted {
        text::glued(seq!["Some(Str("@, debug, "))"@])
    } else {
        text::glued(seq!["Some(Word("@, debug, "))"@])
    }
}

/// A token in words; `debug` is its text as it is written for debugging.
pub fn describe_token(quoted: bool, debug: &str) -> (r: String)
    ensures
        r@ == token_words(quoted, debug@),
{
    if quoted {
        between("Some(Str(", debug, "))")
    } else {
        between("Some(Word(", debug, "))")
    }
}

/// A token that was found, in words.
fn write_found(t: &Option<Tok>) -> (r: String)
    ensures
        r@ == found(t.deep_view()),
{
    match t {
        None => "None".to_owned(),
        Some(Tok::Word(w)) => describe_token(false, write_debug(w.as_str()).as_str()),
        Some(Tok::Str(w)) => describe_token(true, write_debug(w.as_str()).as_str()),
    }
}

impl SqlErrorView {
    /// The words of the error.
    pub open spec fn words(self) -> Seq<char> {
        match self {
            SqlErrorView::Unterminated => "unterminated string literal"@,
            SqlErrorView::Expected(w, t) => text::glued(
                seq!["expected `"@, w, text::glued(seq!["`, found "@, found(t), ""@])],
            ),
            SqlErrorView::NoDataset => "expected dataset name after FROM"@,
            SqlErrorView::NoColumn(w) => text::glued(seq!["expected column after "@, w, ""@]),
            SqlErrorView::NoSelection => "expected an aggregate function or a column in SELECT"@,
            SqlErrorView::NoArgument(t) => text::glued(
                seq!["expected aggregate argument, found "@, found(t), ""@],
            ),
            SqlErrorView::UnknownFunction(w) => text::glued(
                seq!["unknown aggregate function `"@, w, "`"@],
            ),
            SqlErrorView::StarArgument =>
                "`*` is only valid as COUNT(*) — field aggregates need a column name"@,
            SqlErrorView::NoField => "expected a column name in WHERE term"@,
            SqlErrorView::NoOperator(t) => text::glued(
                seq!["expected a comparison operator, found "@, found(t), ""@],
            ),
            SqlErrorView::UnknownOperator(w) => text::glued(
                seq!["unknown comparison operator `"@, w, "`"@],
            ),
            SqlErrorView::NoLiteral => "expected a literal value"@,
            SqlErrorView::BadLimit(t) => text::glued(
                seq!["expected a row count after LIMIT, found "@, found(t), ""@],
            ),
            SqlErrorView::Trailing(w) => text::glued(
                seq!["unexpected trailing input near token "@, w, ""@],
            ),
            SqlErrorView::Invalid(e) => e.words(),
        }
    }
}

impl SqlError {
    /// The words of the error.
    pub fn message(&self) -> (r: String)
        ensures
            r@ == self.deep_view().words(),
    {
        match self {
            SqlError::Unterminated => "unterminated string literal".to_owned(),
            SqlError::Expected(w, t) => {
                let rest: String = between("`, found ", write_found(t).as_str(), "");
                between("expected `", w.as_str(), rest.as_str())
            },
            SqlError::NoDataset => "expected dataset name after FROM".to_owned(),
            SqlError::NoColumn(w) => between("expected column after ", w.as_str(), ""),
            SqlError::NoSelection => "expected an aggregate function or a column in SELECT".to_owned(),
            SqlError::NoArgument(t) => between(
                "expected aggregate argument, found ",
                write_found(t).as_str(),
                "",
            ),
            SqlError::UnknownFunction(w) => between("unknown aggregate function `", w.as_str(), "`"),
            SqlError::StarArgument =>
                "`*` is only valid as COUNT(*) — field aggregates need a column name".to_owned(),
            SqlError::NoField => "expected a column name in WHERE term".to_owned(),
            SqlError::NoOperator(t) => between(
                "expected a comparison operator, found ",
                write_found(t).as_str(),
                "",
            ),
            SqlError::UnknownOperator(w) => between("unknown comparison operator `", w.as_str(), "`"),
            SqlError::NoLiteral => "expected a literal value".to_owned(),
            SqlError::BadLimit(t) => between(
                "expected a row count after LIMIT, found ",
                write_found(t).as_str(),
                "",
            ),
            SqlError::Trailing(w) => between("unexpected trailing input near token ", w.as_str(), ""),
            SqlError::Invalid(e) => e.message(),
        }
    }
}

} // verus!
