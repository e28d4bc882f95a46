//! JSON values, and the cells of a row.

use crate::decimal;
use crate::decimal::{read_float, read_integer};
use crate::float::Float;
use crate::table::Duplicate;
use crate::text::chars_of;
use vstd::prelude::*;

verus! {

/// A number: an exact integer, or a floating-point number. The latter is finite wherever it stands
/// for a JSON number.
#[derive(Debug, Clone, Copy, PartialEq, Eq, Structural)]
pub enum Num {
    /// An exact integer.
    Int(i128),
    /// A floating-point number.
    Float(Float),
}

/// A JSON value. An array or an object is held as its compact text: nothing here looks inside.
#[derive(Debug, Clone, PartialEq, Eq)]
pub enum Json {
    Null,
    Bool(bool),
    Number(Num),
    String(String),
    Array(String),
    Object(String),
}

/// What a [`Json`] stands for.
pub enum JsonView {
    Null,
    Bool(bool),
    Number(Num),
    String(Seq<char>),
    Array(Seq<char>),
    Object(Seq<char>),
}

impl DeepView for Json {
    type V = JsonView;

    open spec fn deep_view(&self) -> JsonView {
        match self {
            Json::Null => JsonView::Null,
            Json::Bool(b) => JsonView::Bool(*b),
            Json::Number(n) => JsonView::Number(*n),
            Json::String(s) => JsonView::String(s@),
            Json::Array(s) => JsonView::Array(s@),
            Json::Object(s) => JsonView::Object(s@),
        }
    }
}

impl Duplicate for Json {
    fn duplicate(&self) -> (r: Self) {
        match self {
            Json::Null => Json::Null,
            Json::Bool(b) => Json::Bool(*b),
            Json::Number(n) => Json::Number(*n),
            Json::String(s) => Json::String(s.clone()),
            Json::Array(s) => Json::Array(s.clone()),
            Json::Object(s) => Json::Object(s.clone()),
        }
    }
}

/// A cell of a row: its value, and the compact JSON text that it was read as.
#[derive(Debug, Clone, PartialEq, Eq)]
pub struct Cell {
    pub value: Json,
    pub text: String,
}

/// What a [`Cell`] stands for.
pub struct CellView {
    pub value: JsonView,
    pub text: Seq<char>,
}

impl DeepView for Cell {
    type V = CellView;

    open spec fn deep_view(&self) -> CellView {
        CellView { value: self.value.deep_view(), text: self.text@ }
    }
}

impl Duplicate for Cell {
    fn duplicate(&self) -> (r: Self) {
        Cell { value: self.value.duplicate(), text: self.text.clone() }
    }
}

impl CellView {
    /// The cell as a key: the content of a string, the text of anything else.
    pub open spec fn as_key(self) -> Seq<char> {
        match self.value {
            JsonView::String(s) => s,
            _ => self.text,
        }
    }
}

impl Cell {
    /// The cell as a key: the content of a string, the text of anything else.
    pub fn key(&self) -> (r: String)
        ensures
            r@ == self.deep_view().as_key(),
    {
        match &self.value {
            Json::String(s) => s.clone(),
            _ => self.text.clone(),
        }
    }
}

/// The number that the text of a JSON number stands for: an integer where a 64-bit one, signed or
/// not, can hold it, the nearest floating-point number otherwise.
pub open spec fn number_of(text: Seq<char>) -> Option<Num> {
    match decimal::integer_of(text) {
        Some(v) => if i64::MIN <= v <= u64::MAX {
            Some(Num::Int(v as i128))
        } else {
            float_number(text)
        },
        None => float_number(text),
    }
}

pub open spec fn float_number(text: Seq<char>) -> Option<Num> {
    match decimal::float_of(text) {
        Some(f) => Some(Num::Float(f)),
        None => None,
    }
}

/// The value that a compact JSON text stands for; `string` is its content where it is a string.
pub open spec fn value_of(string: Option<Seq<char>>, text: Seq<char>) -> JsonView {
    match string {
        Some(s) => JsonView::String(s),
        None => if text.len() == 0 || text[0] == 'n' {
            JsonView::Null
        } else if text[0] == 't' {
            JsonView::Bool(true)
        } else if text[0] == 'f' {
            JsonView::Bool(false)
        } else if text[0] == '[' {
            JsonView::Array(text)
        } else if text[0] == '{' {
            JsonView::Object(text)
        } else {
            match number_of(text) {
                Some(n) => JsonView::Number(n),
                None => JsonView::Null,
            }
        },
    }
}

/// The value that a compact JSON text stands for.
pub fn read_value(string: Option<String>, text: &str) -> (r: Json)
    ensures
        r.deep_view() == value_of(string.deep_view(), text@),
{
    match string {
        Some(s) => Json::String(s),
        None => {
            let chars: Vec<char> = chars_of(text);
            if chars.len() == 0 || chars[0] == 'n' {
                Json::Null
            } else if chars[0] == 't' {
                Json::Bool(true)
            } else if chars[0] == 'f' {
                Json::Bool(false)
            } else if chars[0] == '[' {
                Json::Array(text.to_owned())
            } else if chars[0] == '{' {
                Json::Object(text.to_owned())
            } else {
                match read_number(&chars) {
                    Some(n) => Json::Number(n),
                    None => Json::Null,
                }
            }
        },
    }
}

/// The number that the text of a JSON number stands for.
fn read_number(chars: &Vec<char>) -> (r: Option<Num>)
    ensures
        r == number_of(chars@),
{
    match read_integer(chars.as_slice()) {
        Some(v) => {
            if -0x8000_0000_0000_0000 <= v && v <= 0xffff_ffff_ffff_ffff {
                return Some(Num::Int(v));
            }
        },
        None => {},
    }
    match read_float(chars.as_slice()) {
        Some(f) => Some(Num::Float(f)),
        None => None,
    }
}

/// A field of an object: its name, its content where it is a string, and its compact text.
pub type FieldView = (Seq<char>, Option<Seq<char>>, Seq<char>);

/// What `serde_json` reads from a text: the fields of an object in the order in which it holds
/// them, `Err(Some(..))` with the compact text of any other value, or `Err(None)` where the text is
/// no JSON.
pub uninterp spec fn object_fields(text: Seq<char>) -> Result<Seq<FieldView>, Option<Seq<char>>>;

/// The character that stands for a hexadecimal digit.
pub open spec fn hex_digit(d: int) -> char {
    if d < 10 {
        (48 + d) as u8 as char
    } else {
        (87 + d) as u8 as char
    }
}

/// How a character is written inside a JSON string.
pub open spec fn escaped(c: char) -> Seq<char> {
    if c == '"' {
        seq!['\\', '"']
    } else if c == '\\' {
        seq!['\\', '\\']
    } else if c as u32 == 8 {
        seq!['\\', 'b']
    } else if c as u32 == 9 {
        seq!['\\', 't']
    } else if c as u32 == 10 {
        seq!['\\', 'n']
    } else if c as u32 == 12 {
        seq!['\\', 'f']
    } else if c as u32 == 13 {
        seq!['\\', 'r']
    } else if (c as u32) < 32 {
        seq!['\\', 'u', '0', '0', hex_digit(c as int / 16), hex_digit(c as int % 16)]
    } else {
        seq![c]
    }
}

pub open spec fn escaped_all(s: Seq<char>) -> Seq<char>
    decreases s.len(),
{
    if s.len() == 0 {
        Seq::empty()
    } else {
        escaped_all(s.drop_last()) + escaped(s.last())
    }
}

/// `s` as a JSON string.
pub open spec fn quoted(s: Seq<char>) -> Seq<char> {
    seq!['"'] + escaped_all(s) + seq!['"']
}

/// The fields one after another, a comma between two.
pub open spec fn fields_text(fields: Seq<FieldView>) -> Seq<char>
    decreases fields.len(),
{
    if fields.len() == 0 {
        Seq::empty()
    } else {
        let rest = fields_text(fields.drop_last());
        let last = quoted(fields.last().0) + seq![':'] + fields.last().2;
        if fields.len() == 1 {
            last
        } else {
            rest + seq![','] + last
        }
    }
}

/// The compact text of an object.
pub open spec fn object_text(fields: Seq<FieldView>) -> Seq<char> {
    seq!['{'] + fields_text(fields) + seq!['}']
}

/// The string content and the compact text are those of a field of some object that was read.
pub open spec fn was_read(string: Option<Seq<char>>, text: Seq<char>) -> bool {
    exists|t: Seq<char>, i: int| #[trigger] is_field(t, i, string, text)
}

pub open spec fn is_field(t: Seq<char>, i: int, string: Option<Seq<char>>, text: Seq<char>) -> bool {
    match object_fields(t) {
        Ok(fields) => 0 <= i < fields.len() && fields[i].1 == string && fields[i].2 == text,
        Err(_) => false,
    }
}

/// No compact text among the fields holds a line break.
pub open spec fn on_one_line(r: Result<Seq<FieldView>, Option<Seq<char>>>) -> bool {
    r matches Ok(fields) ==> forall|i: int|
        0 <= i < fields.len() ==> !(#[trigger] fields[i]).2.contains('\n')
}

/// Where `text` is the compact text of fields, their names in order and their values such as were
/// read before, `r` is these fields.
pub open spec fn reads_back(text: Seq<char>, r: Result<Seq<FieldView>, Option<Seq<char>>>) -> bool {
    forall|fields: Seq<FieldView>|
        text == #[trigger] object_text(fields) && in_name_order(fields) && (forall|i: int|
            0 <= i < fields.len() ==> was_read((#[trigger] fields[i]).1, fields[i].2)) ==> r == Ok::<
            Seq<FieldView>,
            Option<Seq<char>>,
        >(fields)
}

/// What the two outcomes of reading stand for.
pub open spec fn outcome(
    r: Result<Vec<(String, Option<String>, String)>, Option<String>>,
) -> Result<Seq<FieldView>, Option<Seq<char>>> {
    match r {
        Ok(fields) => Ok(fields.deep_view()),
        Err(other) => Err(other.deep_view()),
    }
}

/// The names of the fields are in strictly increasing order.
pub open spec fn in_name_order(fields: Seq<FieldView>) -> bool {
    forall|i: int, j: int|
        0 <= i < j < fields.len() ==> crate::text::precedes(
            (#[trigger] fields[i]).0,
            (#[trigger] fields[j]).0,
        )
}

/// `serde_json::from_str` to a `Value`, taken apart: the result is a function of the text, and a
/// compact text has no line break. What is compact text of an object, its names in order and its
/// values such as were read from an object before, is read as just these fields: a value is written
/// as its text, and reading its text gives it back. Not stated: which texts are JSON, and what they
/// mean.
#[verifier::external_body]
pub(crate) fn read_object(text: &str) -> (r: Result<Vec<(String, Option<String>, String)>, Option<String>>)
    ensures
        outcome(r) == object_fields(text@),
        on_one_line(outcome(r)),
        reads_back(text@, outcome(r)),
{
    match serde_json::from_str::<serde_json::Value>(text) {
        Ok(serde_json::Value::Object(map)) => Ok(
            map.into_iter().map(|(k, v)| (k, v.as_str().map(|s| s.to_owned()), v.to_string())).collect(),
        ),
        Ok(other) => Err(Some(other.to_string())),
        Err(_) => Err(None),
    }
}

/// `serde_json::to_string` of a string: quotes around it, and quotes, backslashes and control
/// characters escaped.
#[verifier::external_body]
pub(crate) fn quote(s: &str) -> (r: Result<String, serde_json::Error>)
    ensures
        r is Ok,
        r->Ok_0@ == quoted(s@),
{
    serde_json::to_string(s)
}

/// An error of `serde_json`.
#[verifier::external_type_specification]
#[verifier::external_body]
pub struct ExError(serde_json::Error);

} // verus!
