//! The lines of a shard and the rows that they are.

use crate::dataset::{decoded, line_end, line_rows, lines_rows, row_of, RowView, ShardErrorView};
use crate::json;
use crate::json::{CellView, FieldView, JsonView};
use crate::numbers::{blank, lemma_trimmed};
use crate::text;
use crate::writing::{lemma_white, white};
use vstd::prelude::*;
use vstd::utf8::*;

verus! {

/// The field is the last of its name.
pub open spec fn last_of_name(fields: Seq<FieldView>, i: int) -> bool {
    forall|j: int| i < j < fields.len() ==> (#[trigger] fields[j]).0 != fields[i].0
}

/// A row has a cell for each name of a field, with what the last field of that name is.
pub proof fn lemma_fields(fields: Seq<FieldView>, name: Seq<char>, i: int)
    ensures
        row_of(fields).dom().contains(name) <==> exists|j: int|
            0 <= j < fields.len() && (#[trigger] fields[j]).0 == name,
        0 <= i < fields.len() && last_of_name(fields, i) ==> row_of(fields)[fields[i].0] == (CellView {
            value: json::value_of(fields[i].1, fields[i].2),
            text: fields[i].2,
        }),
    decreases fields.len(),
{
    if fields.len() > 0 {
        let rest = fields.drop_last();
        let end = fields.len() - 1;
        lemma_fields(rest, name, i);
        if exists|j: int| 0 <= j < rest.len() && (#[trigger] rest[j]).0 == name {
            let j = choose|j: int| 0 <= j < rest.len() && (#[trigger] rest[j]).0 == name;
            assert(fields[j].0 == name);
        }
        if exists|j: int| 0 <= j < fields.len() && (#[trigger] fields[j]).0 == name {
            let j = choose|j: int| 0 <= j < fields.len() && (#[trigger] fields[j]).0 == name;
            if j < end {
                assert(rest[j].0 == name);
            }
        }
        if fields.last().0 == name {
            assert(fields[end].0 == name);
        }
        if 0 <= i < end && last_of_name(fields, i) {
            assert(fields[end].0 != fields[i].0);
            assert(rest[i] == fields[i]);
            assert forall|j: int| i < j < rest.len() implies (#[trigger] rest[j]).0 != rest[i].0 by {
                assert(fields[j].0 != fields[i].0);
            }
        }
    }
}

/// A text without a line break.
pub open spec fn one_line(s: Seq<char>) -> bool {
    forall|i: int| 0 <= i < s.len() ==> #[trigger] s[i] != '\n'
}

/// The rows of a line: none where it is blank, otherwise that of the JSON object that it is.
pub open spec fn rows_in(line: Seq<char>) -> Seq<RowView> {
    if blank(line) {
        Seq::empty()
    } else {
        seq![row_of(json::object_fields(text::trimmed(line))->Ok_0)]
    }
}

/// The line is blank, or a JSON object.
pub open spec fn is_good(line: Seq<char>) -> bool {
    one_line(line) && (blank(line) || json::object_fields(text::trimmed(line)) is Ok)
}

/// Lines as a text, each with its line break.
pub open spec fn with_breaks(lines: Seq<Seq<char>>) -> Seq<char>
    decreases lines.len(),
{
    if lines.len() == 0 {
        Seq::empty()
    } else {
        lines[0] + seq!['\n'] + with_breaks(lines.skip(1))
    }
}

pub open spec fn rows_in_all(lines: Seq<Seq<char>>) -> Seq<RowView>
    decreases lines.len(),
{
    if lines.len() == 0 {
        Seq::empty()
    } else {
        rows_in(lines[0]) + rows_in_all(lines.skip(1))
    }
}

proof fn lemma_not_blank(s: Seq<char>, i: int)
    requires
        0 <= i < s.len(),
        !white(s[i]),
    ensures
        text::trimmed(s).len() > 0,
    decreases s.len(),
{
    lemma_white(s[0]);
    lemma_white(s.last());
    if white(s[0]) {
        assert(s.skip(1)[i - 1] == s[i]);
        lemma_not_blank(s.skip(1), i - 1);
    } else if white(s.last()) {
        assert(s.drop_last()[i] == s[i]);
        lemma_not_blank(s.drop_last(), i);
    }
}

pub(crate) proof fn lemma_blank(s: Seq<char>)
    ensures
        text::trimmed(s).len() == 0 <==> blank(s),
{
    if blank(s) {
        let none = Seq::<char>::empty();
        lemma_trimmed(s, none, none);
        assert(s + none + none =~= s);
    } else {
        let i = choose|i: int| 0 <= i < s.len() && !white(#[trigger] s[i]);
        lemma_not_blank(s, i);
    }
}

proof fn lemma_line_end(line: Seq<char>, rest: Seq<char>)
    requires
        one_line(line),
        rest.len() > 0 ==> rest[0] == '\n',
    ensures
        line_end(line + rest) == line.len(),
    decreases line.len(),
{
    let s = line + rest;
    if line.len() > 0 {
        assert(s[0] == line[0]);
        assert(line[0] != '\n');
        let tail = line.skip(1);
        assert forall|i: int| 0 <= i < tail.len() implies #[trigger] tail[i] != '\n' by {
            assert(tail[i] == line[i + 1]);
        }
        lemma_line_end(tail, rest);
        assert(s.skip(1) =~= tail + rest);
    } else {
        assert(s =~= rest);
    }
}

proof fn lemma_next_line(line: Seq<char>, rest: Seq<char>, n: nat)
    requires
        one_line(line),
    ensures
        lines_rows(line + seq!['\n'] + rest, n) == crate::dataset::followed(
            line_rows(line, n),
            lines_rows(rest, n + 1),
        ),
{
    let s = line + seq!['\n'] + rest;
    let after = seq!['\n'] + rest;
    assert(s =~= line + after);
    lemma_line_end(line, after);
    assert(s.take(line.len() as int) =~= line);
    assert(s.skip(line.len() as int + 1) =~= rest);
}

proof fn lemma_last_line(line: Seq<char>, n: nat)
    requires
        one_line(line),
    ensures
        lines_rows(line, n) == line_rows(line, n),
{
    let none = Seq::<char>::empty();
    assert(line + none =~= line);
    lemma_line_end(line, none);
    lemma_blank(line);
    if line.len() > 0 {
        assert(line.take(line.len() as int) =~= line);
        if let Ok(rows) = line_rows(line, n) {
            assert(rows + Seq::<RowView>::empty() =~= rows);
        }
    }
}

proof fn lemma_good_lines(lines: Seq<Seq<char>>, rest: Seq<char>, n: nat)
    requires
        forall|i: int| 0 <= i < lines.len() ==> is_good(#[trigger] lines[i]),
    ensures
        lines_rows(with_breaks(lines) + rest, n) == (match lines_rows(rest, n + lines.len()) {
            Ok(rows) => Ok::<Seq<RowView>, ShardErrorView>(rows_in_all(lines) + rows),
            Err(e) => Err(e),
        }),
    decreases lines.len(),
{
    if lines.len() == 0 {
        assert(with_breaks(lines) + rest =~= rest);
        if let Ok(rows) = lines_rows(rest, n) {
            assert(rows_in_all(lines) + rows =~= rows);
        }
    } else {
        let more = lines.skip(1);
        assert(is_good(lines[0]));
        assert forall|i: int| 0 <= i < more.len() implies is_good(#[trigger] more[i]) by {
            assert(more[i] == lines[i + 1]);
        }
        lemma_good_lines(more, rest, n + 1);
        let after = with_breaks(more) + rest;
        assert(with_breaks(lines) + rest =~= lines[0] + seq!['\n'] + after);
        lemma_next_line(lines[0], after, n);
        lemma_blank(lines[0]);
        assert(n + 1 + more.len() == n + lines.len());
        if let Ok(rows) = lines_rows(rest, n + lines.len()) {
            assert(rows_in(lines[0]) + (rows_in_all(more) + rows) =~= rows_in_all(lines) + rows);
        }
    }
}

/// The rows of a shard are those of its lines, in their order; blank lines are passed over, and the last
/// line may do without its line break.
pub proof fn lemma_lines(lines: Seq<Seq<char>>, last: Seq<char>)
    requires
        forall|i: int| 0 <= i < lines.len() ==> is_good(#[trigger] lines[i]),
        is_good(last),
    ensures
        decoded(encode_utf8(with_breaks(lines) + last)) == Ok::<Seq<RowView>, ShardErrorView>(
            rows_in_all(lines) + rows_in(last),
        ),
{
    let s = with_breaks(lines) + last;
    encode_utf8_valid_utf8(s);
    encode_utf8_decode_utf8(s);
    lemma_good_lines(lines, last, 1);
    lemma_last_line(last, 1 + lines.len());
    lemma_blank(last);
}

/// A line that is no JSON object is an error that gives its number, counted from 1; what follows it does
/// not matter.
pub proof fn lemma_bad_line(lines: Seq<Seq<char>>, bad: Seq<char>, more: Seq<char>)
    requires
        forall|i: int| 0 <= i < lines.len() ==> is_good(#[trigger] lines[i]),
        one_line(bad),
        !blank(bad),
        json::object_fields(text::trimmed(bad)) is Err,
    ensures
        decoded(encode_utf8(with_breaks(lines) + (bad + seq!['\n'] + more))) == Err::<
            Seq<RowView>,
            ShardErrorView,
        >(
            match json::object_fields(text::trimmed(bad))->Err_0 {
                None => ShardErrorView::Malformed(lines.len() + 1),
                Some(other) => ShardErrorView::NotObject(lines.len() + 1, other),
            },
        ),
{
    let rest = bad + seq!['\n'] + more;
    let s = with_breaks(lines) + rest;
    encode_utf8_valid_utf8(s);
    encode_utf8_decode_utf8(s);
    lemma_good_lines(lines, rest, 1);
    lemma_next_line(bad, more, 1 + lines.len());
    lemma_blank(bad);
}

/// Bytes that are no text are no shard.
pub proof fn lemma_not_text(bytes: Seq<u8>)
    ensures
        decoded(bytes) == Err::<Seq<RowView>, ShardErrorView>(ShardErrorView::NotUtf8) <==> !valid_utf8(bytes),
{
    if valid_utf8(bytes) {
        lemma_no_text_error(decode_utf8(bytes), 1);
    }
}

proof fn lemma_no_text_error(s: Seq<char>, n: nat)
    ensures
        lines_rows(s, n) != Err::<Seq<RowView>, ShardErrorView>(ShardErrorView::NotUtf8),
    decreases s.len(),
{
    if s.len() > 0 && line_end(s) < s.len() {
        lemma_no_text_error(s.skip(line_end(s) as int + 1), n + 1);
    }
}

/// The value of a hexadecimal digit in lower case.
pub open spec fn digit_code(c: char) -> int {
    if '0' <= c <= '9' {
        c as int - 48
    } else {
        c as int - 87
    }
}

/// The string that is written between two quotes, with escapes as JSON has them.
pub open spec fn unescaped(s: Seq<char>) -> Seq<char>
    decreases s.len(),
{
    if s.len() == 0 {
        Seq::empty()
    } else if s[0] != '\\' || s.len() < 2 {
        seq![s[0]] + unescaped(s.skip(1))
    } else if s[1] == 'u' && s.len() >= 6 {
        seq![
            (((digit_code(s[2]) * 16 + digit_code(s[3])) * 16 + digit_code(s[4])) * 16 + digit_code(s[5])) as char,
        ] + unescaped(s.skip(6))
    } else {
        seq![
            if s[1] == 'b' {
                '\u{8}'
            } else if s[1] == 't' {
                '\t'
            } else if s[1] == 'n' {
                '\n'
            } else if s[1] == 'f' {
                '\u{c}'
            } else if s[1] == 'r' {
                '\r'
            } else {
                s[1]
            },
        ] + unescaped(s.skip(2))
    }
}

proof fn lemma_escape(c: char, rest: Seq<char>)
    ensures
        unescaped(json::escaped(c) + rest) == seq![c] + unescaped(rest),
        forall|i: int|
            0 <= i < json::escaped(c).len() ==> ' ' <= #[trigger] json::escaped(c)[i] && (
            json::escaped(c)[i] == '"' ==> i == 1 && json::escaped(c)[0] == '\\'),
        json::escaped(c).len() > 0,
{
    let e = json::escaped(c);
    let s = e + rest;
    let n = e.len() as int;
    assert(s.skip(n) =~= rest);
    assert(s[0] == e[0]);
    if n >= 2 {
        assert(s[1] == e[1]);
    }
    if n == 6 {
        let k = c as int;
        assert(s[2] == e[2] && s[3] == e[3] && s[4] == e[4] && s[5] == e[5]);
        assert(digit_code(s[4]) == k / 16);
        assert(digit_code(s[5]) == k % 16);
    }
}

proof fn lemma_escaped_front(s: Seq<char>)
    requires
        s.len() > 0,
    ensures
        json::escaped_all(s) == json::escaped(s[0]) + json::escaped_all(s.skip(1)),
    decreases s.len(),
{
    let none = Seq::<char>::empty();
    if s.len() == 1 {
        assert(s.drop_last() =~= none);
        assert(s.skip(1) =~= none);
        assert(json::escaped_all(none) =~= none);
        assert(none + json::escaped(s[0]) =~= json::escaped(s[0]) + none);
    } else {
        let front = s.drop_last();
        lemma_escaped_front(front);
        assert(front.skip(1) =~= s.skip(1).drop_last());
        assert(s.skip(1).last() == s.last());
        assert(json::escaped(s[0]) + json::escaped_all(front.skip(1)) + json::escaped(s.last()) =~= json::escaped(
            s[0],
        ) + (json::escaped_all(front.skip(1)) + json::escaped(s.last())));
    }
}

/// What a string is written as between its quotes is read as that string; it has no control character in
/// it, and no quote but after a backslash.
pub proof fn lemma_quoted(s: Seq<char>)
    ensures
        json::quoted(s) == seq!['"'] + json::escaped_all(s) + seq!['"'],
        unescaped(json::escaped_all(s)) == s,
        forall|i: int|
            0 <= i < json::escaped_all(s).len() ==> ' ' <= #[trigger] json::escaped_all(s)[i] && (
            json::escaped_all(s)[i] == '"' ==> i > 0 && json::escaped_all(s)[i - 1] == '\\'),
    decreases s.len(),
{
    if s.len() == 0 {
        assert(unescaped(json::escaped_all(s)) =~= s);
    } else {
        let rest = s.skip(1);
        lemma_quoted(rest);
        lemma_escaped_front(s);
        let e = json::escaped(s[0]);
        let more = json::escaped_all(rest);
        lemma_escape(s[0], more);
        assert(seq![s[0]] + rest =~= s);
        let all = json::escaped_all(s);
        assert forall|i: int| 0 <= i < all.len() implies ' ' <= #[trigger] all[i] && (all[i] == '"' ==> i > 0
            && all[i - 1] == '\\') by {
            if i < e.len() {
                assert(all[i] == e[i]);
                if i > 0 {
                    assert(all[i - 1] == e[i - 1]);
                }
            } else {
                let j = i - e.len();
                assert(all[i] == more[j]);
                if j > 0 {
                    assert(all[i - 1] == more[j - 1]);
                }
            }
        }
    }
}

/// A row is written as a JSON object: its columns in the order of their names, each with its value as it
/// was read, and a line break after it.
pub proof fn lemma_row_text(rows: Seq<RowView>, row: RowView)
    ensures
        crate::dataset::encoded(rows) == encode_utf8(crate::dataset::shard_text(rows)),
        crate::dataset::shard_text(Seq::empty()) == Seq::<char>::empty(),
        crate::dataset::shard_text(seq![row] + rows) == seq!['{'] + json::fields_text(
            crate::dataset::row_fields(row),
        ) + seq!['}', '\n'] + crate::dataset::shard_text(rows),
        crate::dataset::row_fields(row).len() == crate::table::listing::<String>(row.dom()).len(),
        forall|i: int|
            0 <= i < crate::dataset::row_fields(row).len() ==> {
                let f = #[trigger] crate::dataset::row_fields(row)[i];
                f.0 == crate::table::listing::<String>(row.dom())[i] && f.2 == row[f.0].text && (f.1 is Some
                    <==> row[f.0].value is String) && (f.1 matches Some(s) ==> row[f.0].value
                    == JsonView::String(s))
            },
{
    assert((seq![row] + rows).skip(1) =~= rows);
    let fields = json::fields_text(crate::dataset::row_fields(row));
    assert((seq!['{'] + fields + seq!['}']).push('\n') =~= seq!['{'] + fields + seq!['}', '\n']);
}

/// The fields of an object are written one after another, with a comma between them: the name in quotes,
/// a colon, and the text of the value.
pub proof fn lemma_fields_text(fields: Seq<FieldView>, f: FieldView)
    ensures
        json::fields_text(seq![f]) == json::quoted(f.0) + seq![':'] + f.2,
        fields.len() > 0 ==> json::fields_text(fields.push(f)) == json::fields_text(fields) + seq![','] + (
        json::quoted(f.0) + seq![':'] + f.2),
{
    assert(fields.push(f).drop_last() =~= fields);
}

} // verus!
