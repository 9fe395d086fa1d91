//! Compact JSON: strings, numbers and arrays.

use vstd::prelude::*;
use vstd::string::*;

use crate::text;
use crate::text::{chars_of, decimal_text, hex_char, join_texts};

verus! {

/// How a character stands in a JSON string: quotes, backslashes and the
/// control characters below U+0020 are escaped.
pub open spec fn escaped_char(c: char) -> Seq<char> {
    match c {
        '"' => "\\\""@,
        '\\' => "\\\\"@,
        '\u{8}' => "\\b"@,
        '\t' => "\\t"@,
        '\n' => "\\n"@,
        '\u{c}' => "\\f"@,
        '\r' => "\\r"@,
        _ => if (c as int) < 0x20 {
            "\\u00"@.push(text::hex_digit(c as int / 16)).push(text::hex_digit(c as int % 16))
        } else {
            seq![c]
        },
    }
}

/// The characters of a text, escaped.
pub open spec fn escaped(t: Seq<char>) -> Seq<char>
    decreases t.len(),
{
    if t.len() == 0 {
        Seq::empty()
    } else {
        escaped(t.drop_last()) + escaped_char(t.last())
    }
}

/// A text as a JSON string.
pub open spec fn string_of(t: Seq<char>) -> Seq<char> {
    "\""@ + escaped(t) + "\""@
}

/// Values as a JSON array.
pub open spec fn array_of(values: Seq<Seq<char>>) -> Seq<char> {
    "["@ + text::joined(values, ","@) + "]"@
}

/// A number, or that there is none.
pub open spec fn row_of(row: Option<u32>) -> Seq<char> {
    match row {
        Some(row) => text::decimal_of(row as nat),
        None => "null"@,
    }
}

fn write_char(json: &mut String, c: char)
    ensures
        final(json)@ == old(json)@ + escaped_char(c),
{
    match c {
        '"' => json.append("\\\""),
        '\\' => json.append("\\\\"),
        '\u{8}' => json.append("\\b"),
        '\t' => json.append("\\t"),
        '\n' => json.append("\\n"),
        '\u{c}' => json.append("\\f"),
        '\r' => json.append("\\r"),
        _ => {
            let code = c as u32;
            if code < 0x20 {
                json.append("\\u00");
                json.push(hex_char((code / 16) as u8));
                json.push(hex_char((code % 16) as u8));
            } else {
                json.push(c);
            }
        },
    }
    assert(json@ =~= old(json)@ + escaped_char(c));
}

/// A text as a JSON string.
pub fn json_string(value: &str) -> (json: String)
    ensures
        json@ == string_of(value@),
{
    let characters = chars_of(value);
    let mut json = "\"".to_string();
    let mut i: usize = 0;
    assert(json@ =~= "\""@ + escaped(value@.take(0)));
    while i < characters.len()
        invariant
            i <= characters@.len(),
            characters@ == value@,
            json@ == "\""@ + escaped(value@.take(i as int)),
        decreases characters@.len() - i,
    {
        let ghost longer = value@.take(i + 1);
        assert(longer.drop_last() =~= value@.take(i as int));
        write_char(&mut json, characters[i]);
        i += 1;
        assert(json@ =~= "\""@ + escaped(longer));
    }
    assert(value@.take(i as int) =~= value@);
    json.concat("\"")
}

pub(crate) fn array_text(values: &Vec<String>) -> (json: String)
    ensures
        json@ == array_of(text::views(values@)),
{
    "[".to_string().concat(join_texts(values, ",").as_str()).concat("]")
}

pub(crate) fn number_text(value: u32) -> (json: String)
    ensures
        json@ == text::decimal_of(value as nat),
{
    decimal_text(value as u64)
}

pub(crate) fn row_text(row: Option<u32>) -> (json: String)
    ensures
        json@ == row_of(row),
{
    match row {
        Some(row) => number_text(row),
        None => "null".to_string(),
    }
}

} // verus!
