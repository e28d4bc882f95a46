//! Datasets: named collections of rows, held in shards.
//!
//! A shard holds rows as lines of JSON objects. [`encode_shard`] writes them, [`decode_shard`] reads
//! them back. A [`Dataset`] is only the description of its shards.

use crate::float;
use crate::float::Float;
use crate::json;
use crate::json::{quote, read_object, read_value, Cell, CellView, JsonView};
use crate::query;
use crate::query::as_f64;
use crate::table;
use crate::table::{Duplicate, Table};
use crate::text;
use crate::text::{chars_of, join3, slice_of, trim, trim_range, write_decimal};
use vstd::prelude::*;
use vstd::string::*;
use vstd::utf8::*;

verus! {

/// One record: column names with their cells, in the order of the names.
pub type Row = Table<String, Cell>;

/// What a [`Row`] stands for.
pub type RowView = Map<Seq<char>, CellView>;

/// What is wrong with the bytes of a shard, or with a request to make shards.
#[derive(Debug, Clone, PartialEq, Eq)]
pub enum ShardError {
    /// The bytes are not UTF-8.
    NotUtf8,
    /// A line is no JSON; lines are counted from 1.
    Malformed(usize),
    /// A line is JSON but no object; its compact text.
    NotObject(usize, String),
    /// A row could not be written.
    Unwritable,
    /// No shards were asked for.
    NoShards,
}

/// What a [`ShardError`] stands for.
pub enum ShardErrorView {
    NotUtf8,
    Malformed(nat),
    NotObject(nat, Seq<char>),
    Unwritable,
    NoShards,
}

impl DeepView for ShardError {
    type V = ShardErrorView;

    open spec fn deep_view(&self) -> ShardErrorView {
        match self {
            ShardError::NotUtf8 => ShardErrorView::NotUtf8,
            ShardError::Malformed(n) => ShardErrorView::Malformed(*n as nat),
            ShardError::NotObject(n, t) => ShardErrorView::NotObject(*n as nat, t@),
            ShardError::Unwritable => ShardErrorView::Unwritable,
            ShardError::NoShards => ShardErrorView::NoShards,
        }
    }
}

impl ShardErrorView {
    /// The words of the error.
    pub open spec fn words(self) -> Seq<char> {
        match self {
            ShardErrorView::NotUtf8 => "shard is not valid UTF-8"@,
            ShardErrorView::Malformed(n) => "malformed JSON on shard line "@ + text::decimal_text(n)
                + ""@,
            ShardErrorView::NotObject(n, t) => "shard line "@ + text::decimal_text(n)
                + " is not a JSON object: "@ + t,
            ShardErrorView::Unwritable => "serializing row to JSON"@,
            ShardErrorView::NoShards => "shard_count must be positive"@,
        }
    }
}

impl ShardError {
    /// The words of the error.
    pub fn message(&self) -> (r: String)
        ensures
            r@ == self.deep_view().words(),
    {
        match self {
            ShardError::NotUtf8 => "shard is not valid UTF-8".to_owned(),
            ShardError::Malformed(n) => join3(
                "malformed JSON on shard line ",
                write_decimal(*n as u128).as_str(),
                "",
            ),
            ShardError::NotObject(n, t) => {
                let mut out: String = join3(
                    "shard line ",
                    write_decimal(*n as u128).as_str(),
                    " is not a JSON object: ",
                );
                out.append(t.as_str());
                out
            },
            ShardError::Unwritable => "serializing row to JSON".to_owned(),
            ShardError::NoShards => "shard_count must be positive".to_owned(),
        }
    }
}

/// The field that a cell is written as.
pub open spec fn cell_field(name: Seq<char>, c: CellView) -> json::FieldView {
    (
        name,
        match c.value {
            JsonView::String(s) => Some(s),
            _ => None,
        },
        c.text,
    )
}

/// The cell that a field is read as.
pub open spec fn field_cell(f: json::FieldView) -> CellView {
    CellView { value: json::value_of(f.1, f.2), text: f.2 }
}

/// The fields of a row, in the order of their names.
pub open spec fn row_fields(row: RowView) -> Seq<json::FieldView> {
    let names = table::listing::<String>(row.dom());
    Seq::new(names.len(), |i: int| cell_field(names[i], row[names[i]]))
}

/// The row that fields make up; of two with one name the last stands.
pub open spec fn row_of(fields: Seq<json::FieldView>) -> RowView
    decreases fields.len(),
{
    if fields.len() == 0 {
        Map::empty()
    } else {
        row_of(fields.drop_last()).insert(fields.last().0, field_cell(fields.last()))
    }
}

/// The text of a shard: the compact text of each row, and a line break after it.
pub open spec fn shard_text(rows: Seq<RowView>) -> Seq<char>
    decreases rows.len(),
{
    if rows.len() == 0 {
        Seq::empty()
    } else {
        json::object_text(row_fields(rows[0])).push('\n') + shard_text(rows.skip(1))
    }
}

/// A cell that a shard can hold: it has the value of its text, which was read before and is on one
/// line.
pub open spec fn readable_cell(c: CellView) -> bool {
    &&& c.value == json::value_of(cell_field(Seq::empty(), c).1, c.text)
    &&& json::was_read(cell_field(Seq::empty(), c).1, c.text)
    &&& !c.text.contains('\n')
}

/// A row whose cells a shard can hold.
pub open spec fn readable_row(row: RowView) -> bool {
    &&& table::lists::<String>(table::listing::<String>(row.dom()), row.dom())
    &&& forall|k: Seq<char>| row.dom().contains(k) ==> readable_cell(#[trigger] row[k])
}

/// Rows whose cells a shard can hold.
pub open spec fn readable(rows: Seq<RowView>) -> bool {
    forall|i: int| 0 <= i < rows.len() ==> readable_row(#[trigger] rows[i])
}

/// Where the first line of `s` ends.
pub open spec fn line_end(s: Seq<char>) -> nat
    decreases s.len(),
{
    if s.len() == 0 || s[0] == '\n' {
        0
    } else {
        1 + line_end(s.skip(1))
    }
}

/// What is made of line `n`, which is read as `read`.
pub open spec fn taken(read: Result<Seq<json::FieldView>, Option<Seq<char>>>, n: nat) -> Result<
    RowView,
    ShardErrorView,
> {
    match read {
        Ok(fields) => Ok(row_of(fields)),
        Err(None) => Err(ShardErrorView::Malformed(n)),
        Err(Some(other)) => Err(ShardErrorView::NotObject(n, other)),
    }
}

/// The rows that a line holds: none where it is blank, or one.
pub open spec fn line_rows(line: Seq<char>, n: nat) -> Result<Seq<RowView>, ShardErrorView> {
    let t = text::trimmed(line);
    if t.len() == 0 {
        Ok(Seq::empty())
    } else {
        match taken(json::object_fields(t), n) {
            Ok(row) => Ok(seq![row]),
            Err(e) => Err(e),
        }
    }
}

/// The rows `a` and, after them, those of `b`, unless one of the two is an error.
pub open spec fn followed(
    a: Result<Seq<RowView>, ShardErrorView>,
    b: Result<Seq<RowView>, ShardErrorView>,
) -> Result<Seq<RowView>, ShardErrorView> {
    match a {
        Ok(x) => match b {
            Ok(y) => Ok(x + y),
            Err(e) => Err(e),
        },
        Err(e) => Err(e),
    }
}

/// The rows of the lines of `s`, of which the first has number `n`.
pub open spec fn lines_rows(s: Seq<char>, n: nat) -> Result<Seq<RowView>, ShardErrorView>
    decreases s.len(),
    via lines_rows_shrinks
{
    if s.len() == 0 {
        Ok(Seq::empty())
    } else {
        let e = line_end(s) as int;
        followed(
            line_rows(s.take(e), n),
            if e >= s.len() {
                Ok(Seq::empty())
            } else {
                lines_rows(s.skip(e + 1), n + 1)
            },
        )
    }
}

#[via_fn]
proof fn lines_rows_shrinks(s: Seq<char>, n: nat) {
}

/// The rows of the bytes of a shard.
pub open spec fn decoded(bytes: Seq<u8>) -> Result<Seq<RowView>, ShardErrorView> {
    if valid_utf8(bytes) {
        lines_rows(decode_utf8(bytes), 1)
    } else {
        Err(ShardErrorView::NotUtf8)
    }
}

/// The bytes that rows are written as.
pub open spec fn encoded(rows: Seq<RowView>) -> Seq<u8> {
    encode_utf8(shard_text(rows))
}

/// What a result stands for.
pub open spec fn rows_outcome(r: Result<Vec<Row>, ShardError>) -> Result<
    Seq<RowView>,
    ShardErrorView,
> {
    match r {
        Ok(rows) => Ok(rows.deep_view()),
        Err(e) => Err(e.deep_view()),
    }
}

proof fn lemma_line_end(s: Seq<char>, n: nat)
    requires
        n <= s.len(),
        forall|i: int| 0 <= i < n ==> s[i] != '\n',
        n == s.len() || s[n as int] == '\n',
    ensures
        line_end(s) == n,
    decreases n,
{
    if n > 0 {
        assert(s[0] != '\n');
        assert forall|i: int| 0 <= i < n - 1 implies s.skip(1)[i] != '\n' by {
            assert(s[i + 1] != '\n');
        }
        lemma_line_end(s.skip(1), (n - 1) as nat);
    }
}

/// `std::str::from_utf8`: the text of bytes that are UTF-8, `None` for others.
#[verifier::external_body]
fn utf8_text(bytes: &[u8]) -> (r: Option<String>)
    ensures
        r is Some <==> valid_utf8(bytes@),
        r matches Some(s) ==> s@ == decode_utf8(bytes@),
{
    std::str::from_utf8(bytes).ok().map(|s| s.to_owned())
}

/// The row that fields make up; of two with one name the last stands.
pub fn build_row(fields: Vec<(String, Option<String>, String)>) -> (r: Row)
    ensures
        r.contents() == row_of(fields.deep_view()),
{
    let ghost all = fields.deep_view();
    let mut row: Row = Table::new();
    let mut i: usize = 0;
    while i < fields.len()
        invariant
            i <= fields@.len(),
            all == fields.deep_view(),
            row.contents() == row_of(all.take(i as int)),
        decreases fields@.len() - i,
    {
        let name: String = fields[i].0.clone();
        let string: Option<String> = fields[i].1.duplicate();
        let words: String = fields[i].2.clone();
        let value = read_value(string, words.as_str());
        row.insert(name, Cell { value, text: words });
        proof {
            let next = all.take(i + 1);
            assert(next.drop_last() =~= all.take(i as int));
            assert(next.last() == all[i as int]);
        }
        i = i + 1;
    }
    proof {
        assert(all.take(all.len() as int) =~= all);
    }
    row
}

proof fn lemma_row_cells(fields: Seq<json::FieldView>)
    requires
        forall|i: int| 0 <= i < fields.len() ==> readable_cell(field_cell(#[trigger] fields[i])),
    ensures
        forall|k: Seq<char>|
            row_of(fields).dom().contains(k) ==> readable_cell(#[trigger] row_of(fields)[k]),
    decreases fields.len(),
{
    if fields.len() > 0 {
        let rest = fields.drop_last();
        assert forall|i: int| 0 <= i < rest.len() implies readable_cell(
            field_cell(#[trigger] rest[i]),
        ) by {
            assert(rest[i] == fields[i]);
        }
        lemma_row_cells(rest);
        let last = fields[fields.len() - 1];
        assert(readable_cell(field_cell(last)));
        let before = row_of(rest);
        let after = before.insert(last.0, field_cell(last));
        assert(row_of(fields) == after);
        assert forall|k: Seq<char>| after.dom().contains(k) implies readable_cell(
            #[trigger] after[k],
        ) by {
            if k != last.0 {
                assert(after[k] == before[k]);
                assert(before.dom().contains(k));
            }
        }
    }
}

/// A character is written on one line.
proof fn lemma_escaped(c: char)
    ensures
        !json::escaped(c).contains('\n'),
{
    let e = json::escaped(c);
    assert forall|i: int| 0 <= i < e.len() implies e[i] != '\n' by {
    }
}

proof fn lemma_concat_on_one_line(a: Seq<char>, b: Seq<char>)
    requires
        !a.contains('\n'),
        !b.contains('\n'),
    ensures
        !(a + b).contains('\n'),
{
    if (a + b).contains('\n') {
        let i = (a + b).index_of('\n');
        assert((a + b)[i] == '\n');
        if i < a.len() {
            assert(a[i] == '\n');
        } else {
            assert(b[i - a.len()] == '\n');
        }
    }
}

proof fn lemma_escaped_all(s: Seq<char>)
    ensures
        !json::escaped_all(s).contains('\n'),
    decreases s.len(),
{
    if s.len() > 0 {
        lemma_escaped_all(s.drop_last());
        lemma_escaped(s.last());
        lemma_concat_on_one_line(json::escaped_all(s.drop_last()), json::escaped(s.last()));
    }
}

proof fn lemma_single(c: char)
    requires
        c != '\n',
    ensures
        !seq![c].contains('\n'),
{
    assert forall|i: int| 0 <= i < 1 implies seq![c][i] != '\n' by {
    }
}

/// The compact text of fields on one line is on one line.
proof fn lemma_fields_on_one_line(fields: Seq<json::FieldView>)
    requires
        forall|i: int| 0 <= i < fields.len() ==> !(#[trigger] fields[i]).2.contains('\n'),
    ensures
        !json::fields_text(fields).contains('\n'),
    decreases fields.len(),
{
    if fields.len() > 0 {
        let rest = fields.drop_last();
        assert forall|i: int| 0 <= i < rest.len() implies !(#[trigger] rest[i]).2.contains('\n') by {
            assert(rest[i] == fields[i]);
        }
        lemma_fields_on_one_line(rest);
        let f = fields[fields.len() - 1];
        lemma_escaped_all(f.0);
        lemma_single('"');
        lemma_single(':');
        lemma_single(',');
        lemma_concat_on_one_line(seq!['"'], json::escaped_all(f.0));
        lemma_concat_on_one_line(seq!['"'] + json::escaped_all(f.0), seq!['"']);
        lemma_concat_on_one_line(json::quoted(f.0), seq![':']);
        lemma_concat_on_one_line(json::quoted(f.0) + seq![':'], f.2);
        lemma_concat_on_one_line(json::fields_text(rest), seq![',']);
        lemma_concat_on_one_line(
            json::fields_text(rest) + seq![','],
            json::quoted(f.0) + seq![':'] + f.2,
        );
    }
}

/// The compact text of a row is one line, which trimming leaves as it is.
proof fn lemma_row_text(row: RowView)
    requires
        readable_row(row),
    ensures
        ({
            let t = json::object_text(row_fields(row));
            !t.contains('\n') && text::trimmed(t) == t && t.len() > 0
        }),
{
    let fields = row_fields(row);
    let names = table::listing::<String>(row.dom());
    assert forall|i: int| 0 <= i < fields.len() implies !(#[trigger] fields[i]).2.contains('\n') by {
        assert(names.contains(names[i]));
        assert(readable_cell(row[names[i]]));
    }
    lemma_fields_on_one_line(fields);
    lemma_single('{');
    lemma_single('}');
    let body = json::fields_text(fields);
    lemma_concat_on_one_line(seq!['{'], body);
    lemma_concat_on_one_line(seq!['{'] + body, seq!['}']);
    let t = json::object_text(fields);
    assert(t[0] == '{' && t.last() == '}');
}

/// A row is what its fields make up.
proof fn lemma_row_of_fields(row: RowView)
    requires
        readable_row(row),
    ensures
        row_of(row_fields(row)) == row,
        json::in_name_order(row_fields(row)),
        forall|i: int|
            0 <= i < row_fields(row).len() ==> json::was_read(
                (#[trigger] row_fields(row)[i]).1,
                row_fields(row)[i].2,
            ),
{
    let names = table::listing::<String>(row.dom());
    let fields = row_fields(row);
    assert forall|i: int| 0 <= i < fields.len() implies json::was_read(
        (#[trigger] fields[i]).1,
        fields[i].2,
    ) by {
        assert(names.contains(names[i]));
        assert(readable_cell(row[names[i]]));
    }
    assert forall|i: int, j: int| 0 <= i < j < fields.len() implies text::precedes(
        (#[trigger] fields[i]).0,
        (#[trigger] fields[j]).0,
    ) by {
        assert(<String as table::Key>::earlier(names[i], names[j]));
    }
    lemma_row_of_names(row, names, names.len());
    assert(fields.take(names.len() as int) =~= fields);
    assert(row_of(fields) =~= row) by {
        assert forall|k: Seq<char>| row_of(fields).dom().contains(k) <==> row.dom().contains(k) by {
            assert(names.take(names.len() as int) =~= names);
        }
    }
}

proof fn lemma_row_of_names(row: RowView, names: Seq<Seq<char>>, n: nat)
    requires
        readable_row(row),
        names == table::listing::<String>(row.dom()),
        n <= names.len(),
    ensures
        forall|k: Seq<char>|
            #![trigger row_of(row_fields(row).take(n as int)).dom().contains(k)]
            row_of(row_fields(row).take(n as int)).dom().contains(k) <==> names.take(
                n as int,
            ).contains(k),
        forall|k: Seq<char>|
            row_of(row_fields(row).take(n as int)).dom().contains(k)
                ==> #[trigger] row_of(row_fields(row).take(n as int))[k] == row[k],
    decreases n,
{
    let part = row_fields(row).take(n as int);
    if n > 0 {
        let m = (n - 1) as nat;
        lemma_row_of_names(row, names, m);
        assert(part.drop_last() =~= row_fields(row).take(m as int));
        let name = names[m as int];
        assert(names.contains(name));
        assert(readable_cell(row[name]));
        assert(part.last() == cell_field(name, row[name]));
        assert(field_cell(part.last()) == row[name]);
        assert(names.take(n as int) =~= names.take(m as int).push(name));
        let former = row_of(part.drop_last());
        let now = former.insert(name, row[name]);
        assert(row_of(part) == now);
        assert forall|k: Seq<char>| now.dom().contains(k) implies #[trigger] now[k] == row[k] by {
            if k != name {
                assert(now[k] == former[k]);
                assert(former.dom().contains(k));
            }
        }
        assert forall|k: Seq<char>| #[trigger]
            now.dom().contains(k) <==> names.take(n as int).contains(k) by {
            assert(now.dom().contains(k) <==> former.dom().contains(k) || k == name);
            let before = names.take(m as int);
            if before.contains(k) {
                assert(before.push(name)[before.index_of(k)] == k);
            }
            assert(before.push(name)[m as int] == name);
            if before.push(name).contains(k) && k != name {
                assert(before[before.push(name).index_of(k)] == k);
            }
        }
    } else {
        assert(names.take(0) =~= Seq::<Seq<char>>::empty());
    }
}

/// What reading comes to, `passed` lines into the text of rows.
spec fn reads_rows(
    all: Seq<char>,
    at: int,
    passed: int,
    rows: Seq<RowView>,
    expected: Seq<RowView>,
) -> bool {
    readable(expected) && all == shard_text(expected) ==> {
        &&& 0 <= passed <= expected.len()
        &&& rows == expected.take(passed)
        &&& all.skip(at) == shard_text(expected.skip(passed))
    }
}

/// The next line of the text of rows is the text of the next row.
proof fn lemma_next_row(
    all: Seq<char>,
    at: int,
    end: int,
    passed: int,
    rows: Seq<RowView>,
    expected: Seq<RowView>,
)
    requires
        0 <= at <= end <= all.len(),
        at < all.len(),
        forall|i: int| at <= i < end ==> all[i] != '\n',
        end == all.len() || all[end] == '\n',
        reads_rows(all, at, passed, rows, expected),
        readable(expected),
        all == shard_text(expected),
    ensures
        passed < expected.len(),
        end < all.len(),
        all.subrange(at, end) == json::object_text(row_fields(expected[passed])),
        all.skip(end + 1) == shard_text(expected.skip(passed + 1)),
{
    let left = expected.skip(passed);
    let here = all.skip(at);
    assert(here.len() > 0);
    assert(left.len() > 0);
    let row = expected[passed];
    assert(left[0] == row && readable_row(row));
    lemma_row_text(row);
    let t = json::object_text(row_fields(row));
    let tail = shard_text(left.skip(1));
    assert(here == t.push('\n') + tail);
    let n = t.len() as int;
    assert(here[n] == '\n');
    assert(all[at + n] == '\n');
    assert forall|i: int| 0 <= i < n implies here[i] != '\n' by {
        assert(here[i] == t[i]);
        assert(t.contains(t[i]));
    }
    if end > at + n {
        assert(all[at + n] != '\n');
    }
    if end < at + n {
        assert(here[end - at] == '\n');
    }
    assert(all.subrange(at, end) =~= t);
    assert(left.skip(1) =~= expected.skip(passed + 1));
    assert(here.skip(n + 1) =~= tail);
    assert(all.skip(end + 1) =~= here.skip(n + 1));
}

proof fn lemma_read_row(rows: Seq<RowView>, expected: Seq<RowView>, passed: int, line: Seq<char>)
    requires
        0 <= passed < expected.len(),
        readable(expected),
        rows == expected.take(passed),
        line == json::object_text(row_fields(expected[passed])),
        ({
            let t = text::trimmed(line);
            t.len() > 0 ==> json::reads_back(t, json::object_fields(t))
        }),
    ensures
        line_rows(line, (passed + 1) as nat) == Ok::<Seq<RowView>, ShardErrorView>(
            seq![expected[passed]],
        ),
        rows + seq![expected[passed]] == expected.take(passed + 1),
{
    let row = expected[passed];
    assert(readable_row(row));
    lemma_row_text(row);
    lemma_row_of_fields(row);
    assert(json::reads_back(line, json::object_fields(line)));
    assert(rows + seq![row] =~= expected.take(passed + 1));
}

/// Where rows follow rows follow rows, it does not matter which two are put together first.
proof fn lemma_followed(
    a: Result<Seq<RowView>, ShardErrorView>,
    b: Result<Seq<RowView>, ShardErrorView>,
    c: Result<Seq<RowView>, ShardErrorView>,
)
    ensures
        followed(followed(a, b), c) == followed(a, followed(b, c)),
{
    if a is Ok && b is Ok && c is Ok {
        assert((a->Ok_0 + b->Ok_0) + c->Ok_0 =~= a->Ok_0 + (b->Ok_0 + c->Ok_0));
    }
}

/// The row of a line, which has number `n`.
fn read_line(chars: &[char], from: usize, to: usize, n: usize) -> (r: Result<Option<Row>, ShardError>)
    requires
        from <= to <= chars@.len(),
    ensures
        line_rows(chars@.subrange(from as int, to as int), n as nat) == (match r {
            Ok(Some(row)) => Ok(seq![row.contents()]),
            Ok(None) => Ok(Seq::empty()),
            Err(e) => Err(e.deep_view()),
        }),
        r matches Ok(Some(row)) ==> readable_row(row.contents()),
        ({
            let t = text::trimmed(chars@.subrange(from as int, to as int));
            t.len() > 0 ==> json::reads_back(t, json::object_fields(t))
        }),
{
    let (a, b) = trim_range(chars, from, to);
    if a >= b {
        return Ok(None);
    }
    let line: String = slice_of(chars, a, b);
    let read = read_object(line.as_str());
    proof {
        if let Ok(fields) = json::outcome(read) {
            assert forall|i: int| 0 <= i < fields.len() implies readable_cell(
                field_cell(#[trigger] fields[i]),
            ) by {
                assert(json::is_field(line@, i, fields[i].1, fields[i].2));
            }
            lemma_row_cells(fields);
        }
    }
    match take_line(read, n) {
        Ok(row) => {
            let _entries: usize = row.len();
            Ok(Some(row))
        },
        Err(e) => Err(e),
    }
}

/// What is made of line `n`, which is read as `read`.
pub fn take_line(
    read: Result<Vec<(String, Option<String>, String)>, Option<String>>,
    n: usize,
) -> (r: Result<Row, ShardError>)
    ensures
        taken(json::outcome(read), n as nat) == (match r {
            Ok(row) => Ok::<RowView, ShardErrorView>(row.contents()),
            Err(e) => Err(e.deep_view()),
        }),
{
    match read {
        Ok(fields) => Ok(build_row(fields)),
        Err(None) => Err(ShardError::Malformed(n)),
        Err(Some(other)) => Err(ShardError::NotObject(n, other)),
    }
}

/// Reads the rows of a shard. Blank lines are passed over; a line that is no JSON object is an
/// error.
pub fn decode_shard(bytes: &[u8]) -> (r: Result<Vec<Row>, ShardError>)
    ensures
        rows_outcome(r) == decoded(bytes@),
        r matches Ok(rows) ==> readable(rows.deep_view()),
        forall|rows: Seq<RowView>|
            readable(rows) && bytes@ == #[trigger] encoded(rows) ==> rows_outcome(r) == Ok::<
                Seq<RowView>,
                ShardErrorView,
            >(rows),
{
    let words: String = match utf8_text(bytes) {
        Some(s) => s,
        None => {
            proof {
                assert forall|expected: Seq<RowView>| bytes@ == #[trigger] encoded(expected) implies false by {
                    encode_utf8_valid_utf8(shard_text(expected));
                }
            }
            return Err(ShardError::NotUtf8);
        },
    };
    let chars: Vec<char> = chars_of(words.as_str());
    let ghost all = chars@;
    proof {
        assert(all.skip(0) =~= all);
    }
    let mut rows: Vec<Row> = Vec::new();
    let mut at: usize = 0;
    let mut passed: usize = 0;
    proof {
        assert(rows.deep_view() =~= Seq::<RowView>::empty());
        assert forall|expected: Seq<RowView>| #[trigger]
            reads_rows(all, 0, 0, rows.deep_view(), expected) by {
            assert(expected.take(0) =~= Seq::<RowView>::empty());
            assert(expected.skip(0) =~= expected);
        }
        let rest = lines_rows(all, 1);
        assert(followed(Ok(Seq::empty()), rest) == rest) by {
            if let Ok(y) = rest {
                assert(Seq::<RowView>::empty() + y =~= y);
            }
        }
    }
    while at < chars.len()
        invariant
            all == chars@,
            passed <= at <= all.len(),
            followed(Ok(rows.deep_view()), lines_rows(all.skip(at as int), (passed + 1) as nat)) == lines_rows(
                all,
                1,
            ),
            all == decode_utf8(bytes@),
            readable(rows.deep_view()),
            forall|expected: Seq<RowView>| #[trigger]
                reads_rows(all, at as int, passed as int, rows.deep_view(), expected),
            decoded(bytes@) == lines_rows(all, 1),
        decreases all.len() - at,
    {
        let n: usize = passed + 1;
        let mut end: usize = at;
        while end < chars.len() && chars[end] != '\n'
            invariant
                all == chars@,
                at <= end <= all.len(),
                forall|i: int| at <= i < end ==> all[i] != '\n',
            decreases all.len() - end,
        {
            end = end + 1;
        }
        let ghost here = all.skip(at as int);
        let ghost so_far = rows.deep_view();
        let ghost rest: Result<Seq<RowView>, ShardErrorView> = if end >= all.len() {
            Ok(Seq::empty())
        } else {
            lines_rows(all.skip(end + 1), (n + 1) as nat)
        };
        proof {
            assert forall|i: int| 0 <= i < end - at implies here[i] != '\n' by {
                assert(all[at + i] != '\n');
            }
            lemma_line_end(here, (end - at) as nat);
            assert(here.take(end - at) =~= all.subrange(at as int, end as int));
            if end < all.len() {
                assert(here.skip(end - at + 1) =~= all.skip(end + 1));
            }
        }
        let ghost line = all.subrange(at as int, end as int);
        assert(lines_rows(here, n as nat) == followed(line_rows(line, n as nat), rest));
        match read_line(chars.as_slice(), at, end, n) {
            Ok(Some(row)) => {
                rows.push(row);
                proof {
                    assert(rows.deep_view() =~= so_far + seq![row.contents()]);
                }
            },
            Ok(None) => {
                proof {
                    assert(rows.deep_view() =~= so_far + Seq::<RowView>::empty());
                }
            },
            Err(e) => {
                proof {
                    assert forall|expected: Seq<RowView>|
                        readable(expected) && bytes@ == #[trigger] encoded(expected) implies rows_outcome(
                        Err(e),
                    ) == Ok::<Seq<RowView>, ShardErrorView>(expected) by {
                        encode_utf8_decode_utf8(shard_text(expected));
                        assert(all == shard_text(expected));
                        assert(reads_rows(all, at as int, passed as int, so_far, expected));
                        lemma_next_row(all, at as int, end as int, passed as int, so_far, expected);
                        lemma_read_row(so_far, expected, passed as int, line);
                    }
                }
                return Err(e);
            },
        }
        proof {
            lemma_followed(Ok(so_far), line_rows(line, n as nat), rest);
            assert forall|expected: Seq<RowView>|
                readable(expected) && all == #[trigger] shard_text(expected) implies end
                < all.len() && reads_rows(all, end + 1, n as int, rows.deep_view(), expected) by {
                assert(reads_rows(all, at as int, passed as int, so_far, expected));
                lemma_next_row(all, at as int, end as int, passed as int, so_far, expected);
                lemma_read_row(so_far, expected, passed as int, line);
            }
        }
        if end < chars.len() {
            at = end + 1;
            passed = n;
        } else {
            at = end;
            proof {
                assert(all.skip(at as int) =~= Seq::<char>::empty());
            }
        }
    }
    proof {
        assert(all.skip(at as int) =~= Seq::<char>::empty());
        assert(rows.deep_view() + Seq::<RowView>::empty() =~= rows.deep_view());
        assert forall|expected: Seq<RowView>|
            readable(expected) && bytes@ == #[trigger] encoded(expected) implies rows.deep_view()
            == expected by {
            encode_utf8_decode_utf8(shard_text(expected));
            assert(reads_rows(all, at as int, passed as int, rows.deep_view(), expected));
            let left = expected.skip(passed as int);
            assert(all.skip(at as int).len() == 0);
            assert(left.len() == 0);
            assert(expected.take(passed as int) =~= expected);
        }
    }
    Ok(rows)
}

/// The compact text of a row.
fn row_text(row: &Row) -> (r: Result<String, ShardError>)
    ensures
        r is Ok,
        r->Ok_0@ == json::object_text(row_fields(row.contents())),
{
    let n: usize = row.len();
    let ghost fields = row_fields(row.contents());
    let mut out: String = "{".to_owned();
    let mut i: usize = 0;
    proof {
        reveal_strlit("{");
        reveal_strlit("}");
        reveal_strlit(",");
        reveal_strlit(":");
        assert(out@ =~= seq!['{'] + json::fields_text(fields.take(0)));
    }
    while i < n
        invariant
            i <= n == row.keys().len(),
            row.keys() == table::listing::<String>(row.contents().dom()),
            forall|j: int|
                0 <= j < n ==> row.contents()[#[trigger] row.keys()[j]] == row.values()[j],
            fields == row_fields(row.contents()),
            out@ == seq!['{'] + json::fields_text(fields.take(i as int)),
        decreases n - i,
    {
        proof {
            reveal_strlit(",");
            reveal_strlit(":");
        }
        let ghost before = fields.take(i as int);
        if i > 0 {
            out.append(",");
        }
        let name: String = match quote(row.key_at(i).as_str()) {
            Ok(t) => t,
            Err(_) => {
                return Err(ShardError::Unwritable);
            },
        };
        out.append(name.as_str());
        out.append(":");
        let cell: &Cell = row.value_at(i);
        out.append(cell.text.as_str());
        proof {
            let next = fields.take(i + 1);
            assert(next.drop_last() =~= before);
            let f = fields[i as int];
            assert(next.last() == f);
            assert(f.0 == row.keys()[i as int]);
            assert(f.2 == row.values()[i as int].text);
            let last = json::quoted(f.0) + seq![':'] + f.2;
            if i > 0 {
                assert(out@ =~= seq!['{'] + (json::fields_text(before) + seq![','] + last));
            } else {
                assert(out@ =~= seq!['{'] + last);
            }
        }
        i = i + 1;
    }
    out.append("}");
    proof {
        assert(fields.take(n as int) =~= fields);
        assert("}"@ =~= seq!['}']);
    }
    Ok(out)
}

proof fn lemma_shard_text_push(rows: Seq<RowView>, row: RowView)
    ensures
        shard_text(rows.push(row)) == shard_text(rows) + json::object_text(row_fields(row)).push('\n'),
    decreases rows.len(),
{
    let line = json::object_text(row_fields(row)).push('\n');
    if rows.len() == 0 {
        assert(rows.push(row).skip(1) =~= Seq::<RowView>::empty());
        assert(rows.push(row)[0] == row);
        assert(shard_text(rows.push(row)) =~= line + shard_text(Seq::<RowView>::empty()));
        assert(shard_text(Seq::<RowView>::empty()) =~= Seq::<char>::empty());
        assert(shard_text(rows) =~= Seq::<char>::empty());
        assert(shard_text(rows) + line =~= line);
        assert(line + Seq::<char>::empty() =~= line);
    } else {
        let rest = rows.skip(1);
        lemma_shard_text_push(rest, row);
        assert(rows.push(row).skip(1) =~= rest.push(row));
        assert(rows.push(row)[0] == rows[0]);
        let first = json::object_text(row_fields(rows[0])).push('\n');
        assert(first + (shard_text(rest) + line) =~= (first + shard_text(rest)) + line);
    }
}

/// The bytes of a string.
fn bytes_of(s: &str) -> (r: Vec<u8>)
    ensures
        r@ == encode_utf8(s@),
{
    let bytes: &[u8] = s.as_bytes();
    let mut out: Vec<u8> = Vec::new();
    out.extend_from_slice(bytes);
    proof {
        assert(out@ =~= bytes@);
    }
    out
}

/// Writes rows as the bytes of a shard, one line for each.
pub fn encode_shard(rows: &[Row]) -> (r: Result<Vec<u8>, ShardError>)
    ensures
        r is Ok,
        r->Ok_0@ == encoded(rows.deep_view()),
{
    let ghost all = rows.deep_view();
    let mut out: String = String::new();
    let mut i: usize = 0;
    proof {
        assert(all.take(0) =~= Seq::<RowView>::empty());
        assert(shard_text(all.take(0)) =~= Seq::<char>::empty());
    }
    while i < rows.len()
        invariant
            i <= rows@.len(),
            all == rows.deep_view(),
            out@ == shard_text(all.take(i as int)),
        decreases rows@.len() - i,
    {
        match row_text(&rows[i]) {
            Ok(line) => {
                out.append(line.as_str());
                out.push('\n');
                proof {
                    lemma_shard_text_push(all.take(i as int), all[i as int]);
                    assert(all.take(i + 1) =~= all.take(i as int).push(all[i as int]));
                    assert(out@ =~= shard_text(all.take(i as int)) + line@.push('\n'));
                }
            },
            Err(e) => {
                return Err(e);
            },
        }
        i = i + 1;
    }
    proof {
        assert(all.take(all.len() as int) =~= all);
    }
    Ok(bytes_of(out.as_str()))
}

/// The rows that go to shard `i` of `n`: every `n`-th, from the `i`-th on.
pub open spec fn dealt<T>(rows: Seq<T>, n: int, i: int) -> Seq<T>
    decreases rows.len(),
{
    if rows.len() == 0 {
        Seq::empty()
    } else if (rows.len() - 1) % n == i {
        dealt(rows.drop_last(), n, i).push(rows.last())
    } else {
        dealt(rows.drop_last(), n, i)
    }
}

/// Row `k` is the `k / n`-th of shard `k % n`.
pub open spec fn goes_to<T>(rows: Seq<T>, n: int, k: int) -> bool {
    0 <= k / n < dealt(rows, n, k % n).len() && dealt(rows, n, k % n)[k / n] == rows[k]
}

/// Every row goes to one shard: row `k` is the `k / n`-th of shard `k % n`, and a shard has no rows
/// but these.
pub proof fn lemma_dealt<T>(rows: Seq<T>, n: int)
    requires
        n > 0,
    ensures
        forall|k: int| 0 <= k < rows.len() ==> #[trigger] goes_to(rows, n, k),
        forall|i: int|
            0 <= i < n ==> (#[trigger] dealt(rows, n, i)).len() == (rows.len() + n - 1 - i) / n,
    decreases rows.len(),
{
    if rows.len() > 0 {
        let rest = rows.drop_last();
        let m = rest.len() as int;
        lemma_dealt(rest, n);
        assert forall|i: int| 0 <= i < n implies (#[trigger] dealt(rows, n, i)).len() == (rows.len() + n
            - 1 - i) / n && (m % n == i ==> dealt(rest, n, i).len() == m / n) by {
            assert(dealt(rest, n, i).len() == (m + n - 1 - i) / n);
            lemma_next_multiple(m, n, i);
        }
        assert(0 <= m % n < n && m / n >= 0) by {
            vstd::arithmetic::div_mod::lemma_mod_bound(m, n);
            vstd::arithmetic::div_mod::lemma_div_pos_is_pos(m, n);
        }
        assert(dealt(rows, n, m % n) == dealt(rest, n, m % n).push(rows[m]));
        assert forall|k: int| 0 <= k < rows.len() implies #[trigger] goes_to(rows, n, k) by {
            if k < m {
                assert(goes_to(rest, n, k));
                assert(rest[k] == rows[k]);
            }
        }
    } else {
        assert forall|i: int| 0 <= i < n implies (#[trigger] dealt(rows, n, i)).len() == (0 + n - 1 - i)
            / n by {
            vstd::arithmetic::div_mod::lemma_basic_div(n - 1 - i, n);
        }
    }
}

proof fn lemma_next_multiple(m: int, n: int, i: int)
    requires
        n > 0,
        m >= 0,
        0 <= i < n,
    ensures
        (m + n - i) / n == (m + n - 1 - i) / n + (if m % n == i {
            1int
        } else {
            0int
        }),
        m % n == i ==> (m + n - 1 - i) / n == m / n,
{
    let q = m / n;
    let r = m % n;
    vstd::arithmetic::div_mod::lemma_fundamental_div_mod(m, n);
    vstd::arithmetic::div_mod::lemma_mod_bound(m, n);
    let a = r + n - i;
    assert(n * (q + 1) == n * q + n) by (nonlinear_arith);
    if r < i {
        vstd::arithmetic::div_mod::lemma_fundamental_div_mod_converse(m + n - i, n, q, a);
        vstd::arithmetic::div_mod::lemma_fundamental_div_mod_converse(m + n - 1 - i, n, q, a - 1);
    } else if r == i {
        vstd::arithmetic::div_mod::lemma_fundamental_div_mod_converse(m + n - i, n, q + 1, 0);
        vstd::arithmetic::div_mod::lemma_fundamental_div_mod_converse(m + n - 1 - i, n, q, n - 1);
    } else {
        vstd::arithmetic::div_mod::lemma_fundamental_div_mod_converse(m + n - i, n, q + 1, r - i);
        vstd::arithmetic::div_mod::lemma_fundamental_div_mod_converse(
            m + n - 1 - i,
            n,
            q + 1,
            r - i - 1,
        );
    }
}

/// Deals rows out to `shard_count` shards in turn, and writes each shard.
pub fn shard_rows(rows: &[Row], shard_count: usize) -> (r: Result<
    Vec<(Vec<Row>, Vec<u8>)>,
    ShardError,
>)
    ensures
        r is Err <==> shard_count == 0,
        r matches Err(e) ==> e.deep_view() == ShardErrorView::NoShards,
        r matches Ok(shards) ==> shards@.len() == shard_count && forall|i: int|
            0 <= i < shard_count ==> (#[trigger] shards@[i]).0.deep_view() == dealt(
                rows.deep_view(),
                shard_count as int,
                i,
            ) && shards@[i].1@ == encoded(shards@[i].0.deep_view()),
{
    if shard_count == 0 {
        return Err(ShardError::NoShards);
    }
    let ghost all = rows.deep_view();
    let mut buckets: Vec<Vec<Row>> = Vec::new();
    let mut k: usize = 0;
    while k < shard_count
        invariant
            k <= shard_count,
            buckets@.len() == k,
            forall|i: int| 0 <= i < k ==> (#[trigger] buckets@[i]).deep_view() == Seq::<RowView>::empty(),
        decreases shard_count - k,
    {
        let bucket: Vec<Row> = Vec::new();
        proof {
            assert(bucket.deep_view() =~= Seq::<RowView>::empty());
        }
        buckets.push(bucket);
        k = k + 1;
    }
    let mut i: usize = 0;
    while i < rows.len()
        invariant
            shard_count > 0,
            i <= rows@.len(),
            all == rows.deep_view(),
            buckets@.len() == shard_count,
            forall|b: int|
                0 <= b < shard_count ==> (#[trigger] buckets@[b]).deep_view() == dealt(
                    all.take(i as int),
                    shard_count as int,
                    b,
                ),
        decreases rows@.len() - i,
    {
        let b: usize = i % shard_count;
        let mut bucket: Vec<Row> = Vec::new();
        std::mem::swap(&mut bucket, &mut buckets[b]);
        let ghost before = bucket.deep_view();
        bucket.push(rows[i].duplicate());
        proof {
            assert(bucket.deep_view() =~= before.push(all[i as int]));
            assert(all.take(i + 1).drop_last() =~= all.take(i as int));
        }
        std::mem::swap(&mut bucket, &mut buckets[b]);
        i = i + 1;
    }
    proof {
        assert(all.take(all.len() as int) =~= all);
    }
    let mut out: Vec<(Vec<Row>, Vec<u8>)> = Vec::new();
    let mut j: usize = 0;
    while j < shard_count
        invariant
            j <= shard_count,
            buckets@.len() == shard_count - j,
            forall|b: int|
                0 <= b < shard_count - j ==> (#[trigger] buckets@[b]).deep_view() == dealt(
                    all,
                    shard_count as int,
                    b + j,
                ),
            all == rows.deep_view(),
            out@.len() == j,
            forall|b: int|
                0 <= b < j ==> (#[trigger] out@[b]).0.deep_view() == dealt(
                    all,
                    shard_count as int,
                    b,
                ) && out@[b].1@ == encoded(out@[b].0.deep_view()),
        decreases shard_count - j,
    {
        let bucket: Vec<Row> = buckets.remove(0);
        match encode_shard(bucket.as_slice()) {
            Ok(bytes) => {
                out.push((bucket, bytes));
            },
            Err(e) => {
                return Err(e);
            },
        }
        j = j + 1;
    }
    Ok(out)
}

/// The least and the greatest value of each numeric column of a shard. A column with a value that
/// is not numeric is left out.
#[derive(Debug, Clone, PartialEq)]
pub struct ShardStats {
    pub numeric: Table<String, (Float, Float)>,
}

/// What [`ShardStats`] stand for.
pub type StatsView = Map<Seq<char>, (Float, Float)>;

impl DeepView for ShardStats {
    type V = StatsView;

    open spec fn deep_view(&self) -> StatsView {
        self.numeric.contents()
    }
}

impl Default for ShardStats {
    fn default() -> (r: ShardStats)
        ensures
            r.deep_view() == Map::<Seq<char>, (Float, Float)>::empty(),
    {
        ShardStats { numeric: Table::new() }
    }
}

impl Duplicate for ShardStats {
    fn duplicate(&self) -> (r: Self) {
        ShardStats { numeric: self.numeric.duplicate() }
    }
}

/// The description of a shard: the content id of its bytes, how many rows and bytes it has, and the
/// ranges of its columns where they are known.
#[derive(Debug, Clone, PartialEq)]
pub struct Shard {
    pub cid: String,
    pub rows: u64,
    pub bytes: u64,
    pub stats: Option<ShardStats>,
}

/// What a [`Shard`] stands for.
pub struct ShardView {
    pub cid: Seq<char>,
    pub rows: u64,
    pub bytes: u64,
    pub stats: Option<StatsView>,
}

impl DeepView for Shard {
    type V = ShardView;

    open spec fn deep_view(&self) -> ShardView {
        ShardView {
            cid: self.cid@,
            rows: self.rows,
            bytes: self.bytes,
            stats: self.stats.deep_view(),
        }
    }
}

impl Duplicate for Shard {
    fn duplicate(&self) -> (r: Self) {
        Shard {
            cid: self.cid.clone(),
            rows: self.rows,
            bytes: self.bytes,
            stats: self.stats.duplicate(),
        }
    }
}

impl Shard {
    /// A description without ranges.
    pub fn new(cid: &str, rows: u64, bytes: u64) -> (r: Shard)
        ensures
            r.deep_view() == (ShardView { cid: cid@, rows, bytes, stats: None }),
    {
        Shard { cid: cid.to_owned(), rows, bytes, stats: None }
    }
}

/// A dataset: its name, the names of its columns as far as they were declared, and its shards.
#[derive(Debug, Clone, PartialEq)]
pub struct Dataset {
    pub name: String,
    pub schema: Vec<String>,
    pub shards: Vec<Shard>,
}

/// What a [`Dataset`] stands for.
pub struct DatasetView {
    pub name: Seq<char>,
    pub schema: Seq<Seq<char>>,
    pub shards: Seq<ShardView>,
}

impl DeepView for Dataset {
    type V = DatasetView;

    open spec fn deep_view(&self) -> DatasetView {
        DatasetView {
            name: self.name@,
            schema: self.schema.deep_view(),
            shards: self.shards.deep_view(),
        }
    }
}

impl Duplicate for Dataset {
    fn duplicate(&self) -> (r: Self) {
        Dataset {
            name: self.name.clone(),
            schema: self.schema.duplicate(),
            shards: self.shards.duplicate(),
        }
    }
}

/// The number of rows that shards declare.
pub open spec fn rows_of(shards: Seq<ShardView>) -> nat
    decreases shards.len(),
{
    if shards.len() == 0 {
        0
    } else {
        rows_of(shards.drop_last()) + shards.last().rows as nat
    }
}

/// The number of bytes that shards declare.
pub open spec fn bytes_of_shards(shards: Seq<ShardView>) -> nat
    decreases shards.len(),
{
    if shards.len() == 0 {
        0
    } else {
        bytes_of_shards(shards.drop_last()) + shards.last().bytes as nat
    }
}

proof fn lemma_totals_grow(shards: Seq<ShardView>, n: int)
    requires
        0 <= n <= shards.len(),
    ensures
        rows_of(shards.take(n)) <= rows_of(shards),
        bytes_of_shards(shards.take(n)) <= bytes_of_shards(shards),
    decreases shards.len(),
{
    if n < shards.len() {
        lemma_totals_grow(shards.drop_last(), n);
        assert(shards.drop_last().take(n) =~= shards.take(n));
    } else {
        assert(shards.take(n) =~= shards);
    }
}

impl Dataset {
    /// A dataset without shards.
    pub fn new(name: &str, schema: Vec<String>) -> (r: Dataset)
        ensures
            r.deep_view() == (DatasetView {
                name: name@,
                schema: schema.deep_view(),
                shards: Seq::empty(),
            }),
    {
        let r = Dataset { name: name.to_owned(), schema, shards: Vec::new() };
        proof {
            assert(r.shards.deep_view() =~= Seq::<ShardView>::empty());
        }
        r
    }

    /// The number of rows that the shards declare together.
    pub fn total_rows(&self) -> (r: u64)
        requires
            rows_of(self.deep_view().shards) <= u64::MAX,
        ensures
            r == rows_of(self.deep_view().shards),
    {
        let ghost all = self.shards.deep_view();
        let mut total: u64 = 0;
        let mut i: usize = 0;
        proof {
            assert(all.take(0) =~= Seq::<ShardView>::empty());
        }
        while i < self.shards.len()
            invariant
                i <= self.shards@.len(),
                all == self.shards.deep_view(),
                rows_of(all) <= u64::MAX,
                total == rows_of(all.take(i as int)),
            decreases self.shards@.len() - i,
        {
            proof {
                lemma_totals_grow(all, i + 1);
                assert(all.take(i + 1).drop_last() =~= all.take(i as int));
            }
            total = total + self.shards[i].rows;
            i = i + 1;
        }
        proof {
            assert(all.take(all.len() as int) =~= all);
        }
        total
    }

    /// The number of bytes that the shards declare together.
    pub fn total_bytes(&self) -> (r: u64)
        requires
            bytes_of_shards(self.deep_view().shards) <= u64::MAX,
        ensures
            r == bytes_of_shards(self.deep_view().shards),
    {
        let ghost all = self.shards.deep_view();
        let mut total: u64 = 0;
        let mut i: usize = 0;
        proof {
            assert(all.take(0) =~= Seq::<ShardView>::empty());
        }
        while i < self.shards.len()
            invariant
                i <= self.shards@.len(),
                all == self.shards.deep_view(),
                bytes_of_shards(all) <= u64::MAX,
                total == bytes_of_shards(all.take(i as int)),
            decreases self.shards@.len() - i,
        {
            proof {
                lemma_totals_grow(all, i + 1);
                assert(all.take(i + 1).drop_last() =~= all.take(i as int));
            }
            total = total + self.shards[i].bytes;
            i = i + 1;
        }
        proof {
            assert(all.take(all.len() as int) =~= all);
        }
        total
    }

    /// Adds a shard without ranges; the index that it has.
    pub fn add_shard(&mut self, cid: &str, rows: u64, bytes: u64) -> (r: usize)
        ensures
            final(self).deep_view() == (DatasetView {
                shards: old(self).deep_view().shards.push(
                    ShardView { cid: cid@, rows, bytes, stats: None },
                ),
                ..old(self).deep_view()
            }),
            r == old(self).deep_view().shards.len(),
    {
        let ghost was = self.shards.deep_view();
        let shard: Shard = Shard::new(cid, rows, bytes);
        let ghost added = shard.deep_view();
        self.shards.push(shard);
        proof {
            assert(self.shards.deep_view() =~= was.push(added));
        }
        self.shards.len() - 1
    }

    /// Adds a shard with the ranges of its columns; the index that it has.
    pub fn add_shard_with_stats(&mut self, cid: &str, rows: u64, bytes: u64, stats: ShardStats) -> (r:
        usize)
        ensures
            final(self).deep_view() == (DatasetView {
                shards: old(self).deep_view().shards.push(
                    ShardView { cid: cid@, rows, bytes, stats: Some(stats.deep_view()) },
                ),
                ..old(self).deep_view()
            }),
            r == old(self).deep_view().shards.len(),
    {
        let ghost was = self.shards.deep_view();
        let shard: Shard = Shard { cid: cid.to_owned(), rows, bytes, stats: Some(stats) };
        let ghost added = shard.deep_view();
        self.shards.push(shard);
        proof {
            assert(self.shards.deep_view() =~= was.push(added));
        }
        self.shards.len() - 1
    }
}

/// What is known of a column: nothing, that it has a value that is not numeric, or its range.
pub enum Column {
    Unseen,
    Mixed,
    Range(Float, Float),
}

/// What is known of a column after one more value.
pub open spec fn widened(known: Column, value: Option<Float>) -> Column {
    match (known, value) {
        (Column::Mixed, _) => Column::Mixed,
        (_, None) => Column::Mixed,
        (Column::Unseen, Some(v)) => Column::Range(v, v),
        (Column::Range(a, b), Some(v)) => Column::Range(float::min_of(a, v), float::max_of(b, v)),
    }
}

/// What rows tell of a column.
pub open spec fn column(rows: Seq<RowView>, name: Seq<char>) -> Column
    decreases rows.len(),
{
    if rows.len() == 0 {
        Column::Unseen
    } else {
        let known = column(rows.drop_last(), name);
        if rows.last().dom().contains(name) {
            widened(known, query::float_value(rows.last()[name].value))
        } else {
            known
        }
    }
}

/// `stats` hold the range of each column whose values are all numeric, and no others.
pub open spec fn describes(stats: StatsView, rows: Seq<RowView>) -> bool {
    forall|name: Seq<char>|
        match #[trigger] column(rows, name) {
            Column::Range(a, b) => stats.dom().contains(name) && stats[name] == (a, b),
            _ => !stats.dom().contains(name),
        }
}

/// `known` holds what rows tell of each column: its range, or `None` where it is mixed.
spec fn knows(known: Map<Seq<char>, Option<(Float, Float)>>, name: Seq<char>, c: Column) -> bool {
    match c {
        Column::Unseen => !known.dom().contains(name),
        Column::Mixed => known.dom().contains(name) && known[name] == None::<(Float, Float)>,
        Column::Range(a, b) => known.dom().contains(name) && known[name] == Some((a, b)),
    }
}

/// What is known of the columns after the first `n` cells of one more row.
spec fn partway(before: Column, row: RowView, names: Seq<Seq<char>>, n: int, name: Seq<char>) -> Column {
    if names.take(n).contains(name) {
        widened(before, query::float_value(row[name].value))
    } else {
        before
    }
}

/// The ranges of the numeric columns of rows.
pub fn compute_stats(rows: &[Row]) -> (r: ShardStats)
    ensures
        describes(r.deep_view(), rows.deep_view()),
{
    let ghost all = rows.deep_view();
    let mut known: Table<String, Option<(Float, Float)>> = Table::new();
    let mut i: usize = 0;
    proof {
        assert(all.take(0) =~= Seq::<RowView>::empty());
    }
    while i < rows.len()
        invariant
            i <= rows@.len(),
            all == rows.deep_view(),
            forall|name: Seq<char>|
                knows(known.contents(), name, #[trigger] column(all.take(i as int), name)),
        decreases rows@.len() - i,
    {
        let row: &Row = &rows[i];
        let ghost before = all.take(i as int);
        let ghost names = row.keys();
        let n: usize = row.len();
        let mut k: usize = 0;
        proof {
            assert forall|name: Seq<char>| #[trigger]
                knows(
                    known.contents(),
                    name,
                    partway(column(before, name), row.contents(), names, 0, name),
                ) by {
                assert(!names.take(0).contains(name));
            }
        }
        while k < n
            invariant
                k <= n == names.len(),
                names == row.keys(),
                row.values().len() == names.len(),
                table::lists::<String>(names, row.contents().dom()),
                forall|j: int|
                    0 <= j < n ==> row.contents()[#[trigger] row.keys()[j]] == row.values()[j],
                forall|name: Seq<char>| #[trigger]
                    knows(
                        known.contents(),
                        name,
                        partway(column(before, name), row.contents(), names, k as int, name),
                    ),
            decreases n - k,
        {
            let column_name: &String = row.key_at(k);
            let ghost name = names[k as int];
            let cell: &Cell = row.value_at(k);
            let ghost was = known.contents();
            let value: Option<Float> = as_f64(&cell.value);
            let next: Option<(Float, Float)> = match known.get(column_name) {
                Some(Some(range)) => match value {
                    Some(v) => Some((range.0.min(v), range.1.max(v))),
                    None => None,
                },
                Some(None) => None,
                None => match value {
                    Some(v) => Some((v, v)),
                    None => None,
                },
            };
            proof {
                assert(names.take(k + 1) =~= names.take(k as int).push(name));
                assert(!names.take(k as int).contains(name)) by {
                    if names.take(k as int).contains(name) {
                        let j = names.take(k as int).index_of(name);
                        assert(names[j] == name);
                        text::lemma_order(name, name, name);
                        assert(<String as table::Key>::earlier(names[j], names[k as int]));
                    }
                }
                assert(knows(was, name, partway(column(before, name), row.contents(), names, k as int, name)));
            }
            known.insert(column_name.clone(), next);
            proof {
                assert forall|other: Seq<char>| #[trigger]
                    knows(
                        known.contents(),
                        other,
                        partway(column(before, other), row.contents(), names, k + 1, other),
                    ) by {
                    assert(knows(
                        was,
                        other,
                        partway(column(before, other), row.contents(), names, k as int, other),
                    ));
                    if other != name {
                        let s = names.take(k as int);
                        if s.push(name).contains(other) {
                            assert(s[s.push(name).index_of(other)] == other);
                        }
                        if s.contains(other) {
                            assert(s.push(name)[s.index_of(other)] == other);
                        }
                    } else {
                        assert(names.take(k as int).push(name)[k as int] == name);
                    }
                }
            }
            k = k + 1;
        }
        proof {
            assert(names.take(n as int) =~= names);
            assert(all.take(i + 1).drop_last() =~= before);
            assert forall|name: Seq<char>|
                knows(known.contents(), name, #[trigger] column(all.take(i + 1), name)) by {
                assert(knows(
                    known.contents(),
                    name,
                    partway(column(before, name), row.contents(), names, n as int, name),
                ));
            }
        }
        i = i + 1;
    }
    proof {
        assert(all.take(all.len() as int) =~= all);
    }
    let mut numeric: Table<String, (Float, Float)> = Table::new();
    let n: usize = known.len();
    let ghost names = known.keys();
    let mut k: usize = 0;
    while k < n
        invariant
            k <= n == names.len(),
            names == known.keys(),
            known.values().len() == n,
            table::lists::<String>(names, known.contents().dom()),
            forall|j: int|
                0 <= j < n ==> known.contents()[#[trigger] known.keys()[j]] == known.values()[j],
            forall|name: Seq<char>| #[trigger]
                numeric.contents().dom().contains(name) <==> names.take(k as int).contains(name)
                    && known.contents()[name] is Some,
            forall|name: Seq<char>|
                numeric.contents().dom().contains(name) ==> Some(#[trigger] numeric.contents()[name])
                    == known.contents()[name],
        decreases n - k,
    {
        let ghost name = names[k as int];
        proof {
            let s = names.take(k as int);
            assert(names.take(k + 1) =~= s.push(name));
            assert(known.contents()[known.keys()[k as int]] == known.values()[k as int]);
            assert forall|other: Seq<char>|
                s.push(name).contains(other) <==> s.contains(other) || other == name by {
                if s.contains(other) {
                    assert(s.push(name)[s.index_of(other)] == other);
                }
                assert(s.push(name)[k as int] == name);
                if s.push(name).contains(other) && other != name {
                    assert(s[s.push(name).index_of(other)] == other);
                }
            }
        }
        match known.value_at(k) {
            Some(range) => {
                let ghost was = numeric.contents();
                numeric.insert(known.key_at(k).clone(), *range);
                proof {
                    assert(known.contents()[name] is Some);
                    assert forall|other: Seq<char>| #[trigger]
                        numeric.contents().dom().contains(other) <==> names.take(k + 1).contains(other)
                            && known.contents()[other] is Some by {
                        assert(was.dom().contains(other) <==> names.take(k as int).contains(other)
                            && known.contents()[other] is Some);
                    }
                }
            },
            None => {
                proof {
                    assert(known.contents()[name] is None);
                }
            },
        }
        k = k + 1;
    }
    proof {
        assert(names.take(n as int) =~= names);
        assert forall|name: Seq<char>|
            match #[trigger] column(all, name) {
                Column::Range(a, b) => numeric.contents().dom().contains(name)
                    && numeric.contents()[name] == (a, b),
                _ => !numeric.contents().dom().contains(name),
            } by {
            assert(knows(known.contents(), name, column(all, name)));
            assert(names.contains(name) <==> known.contents().dom().contains(name));
            if numeric.contents().dom().contains(name) {
                assert(Some(numeric.contents()[name]) == known.contents()[name]);
            }
        }
    }
    ShardStats { numeric }
}

/// The greatest length of a dataset name, in bytes.
pub const MAX_DATASET_NAME_LEN: usize = 128;

/// What is wrong with a dataset name.
#[derive(Debug, Clone, Copy, PartialEq, Eq, Structural)]
pub enum NameError {
    /// There is nothing but white space.
    Empty,
    /// The name has this many bytes.
    TooLong(usize),
    /// A character that a name may not have; the first such one.
    BadCharacter(char),
}

impl NameError {
    /// The words of the error.
    pub open spec fn words(self) -> Seq<char> {
        match self {
            NameError::Empty => "dataset name is empty"@,
            NameError::TooLong(n) => "dataset name is "@ + text::decimal_text(n as nat)
                + " chars, exceeds the 128-char limit"@,
            NameError::BadCharacter(c) => "dataset name contains an invalid character `"@ + seq![c]
                + "` (allowed: A-Z a-z 0-9 _ - . :)"@,
        }
    }

    /// The words of the error.
    pub fn message(&self) -> (r: String)
        ensures
            r@ == self.words(),
    {
        match self {
            NameError::Empty => "dataset name is empty".to_owned(),
            NameError::TooLong(n) => join3(
                "dataset name is ",
                write_decimal(*n as u128).as_str(),
                " chars, exceeds the 128-char limit",
            ),
            NameError::BadCharacter(c) => {
                let mut one: String = String::new();
                one.push(*c);
                proof {
                    assert(one@ =~= seq![*c]);
                }
                join3(
                    "dataset name contains an invalid character `",
                    one.as_str(),
                    "` (allowed: A-Z a-z 0-9 _ - . :)",
                )
            },
        }
    }
}

/// A character that a dataset name may have.
pub open spec fn name_char(c: char) -> bool {
    let code = c as u32;
    48 <= code <= 57 || 65 <= code <= 90 || 97 <= code <= 122 || c == '_' || c == '-' || c == '.' || c
        == ':'
}

/// The dataset name that `name` gives: its trimmed part, if that is one.
pub open spec fn checked_name(name: Seq<char>) -> Result<Seq<char>, NameError> {
    let t = text::trimmed(name);
    if t.len() == 0 {
        Err(NameError::Empty)
    } else if encode_utf8(t).len() > MAX_DATASET_NAME_LEN {
        Err(NameError::TooLong(encode_utf8(t).len() as usize))
    } else {
        match bad_character(t) {
            Some(c) => Err(NameError::BadCharacter(c)),
            None => Ok(t),
        }
    }
}

/// The first character that a dataset name may not have.
pub open spec fn bad_character(s: Seq<char>) -> Option<char>
    decreases s.len(),
{
    if s.len() == 0 {
        None
    } else if name_char(s[0]) {
        bad_character(s.skip(1))
    } else {
        Some(s[0])
    }
}

fn may_be_in_name(c: char) -> (r: bool)
    ensures
        r == name_char(c),
{
    let code: u32 = c as u32;
    (48 <= code && code <= 57) || (65 <= code && code <= 90) || (97 <= code && code <= 122) || c == '_'
        || c == '-' || c == '.' || c == ':'
}

/// The name without the white space around it, if it is a dataset name: not empty, not too long, of
/// ASCII letters, digits and `_ - . :`.
pub fn validate_dataset_name(name: &str) -> (r: Result<String, NameError>)
    ensures
        checked_name(name@) == (match r {
            Ok(s) => Ok::<Seq<char>, NameError>(s@),
            Err(e) => Err(e),
        }),
{
    let t: String = trim(name);
    let chars: Vec<char> = chars_of(t.as_str());
    if chars.len() == 0 {
        return Err(NameError::Empty);
    }
    let bytes: Vec<u8> = bytes_of(t.as_str());
    let len: usize = bytes.len();
    if len > MAX_DATASET_NAME_LEN {
        return Err(NameError::TooLong(len));
    }
    let mut i: usize = 0;
    proof {
        assert(chars@.skip(0) =~= chars@);
    }
    while i < chars.len()
        invariant
            i <= chars@.len(),
            chars@ == t@,
            bad_character(chars@) == bad_character(chars@.skip(i as int)),
            t@ == text::trimmed(name@),
            0 < t@.len(),
            encode_utf8(t@).len() <= MAX_DATASET_NAME_LEN,
        decreases chars@.len() - i,
    {
        if !may_be_in_name(chars[i]) {
            return Err(NameError::BadCharacter(chars[i]));
        }
        proof {
            assert(chars@.skip(i as int).skip(1) =~= chars@.skip(i + 1));
        }
        i = i + 1;
    }
    Ok(t)
}
} // verus!
