//! What is told of the declarations with a name.

use vstd::prelude::*;
use vstd::string::*;
use vstd::utf8::*;

use crate::diff::alpha::quote;
use crate::diff::declarations::Declaration;
use crate::diff::fingerprint::{
    ApiCallFingerprint, ConstantFingerprint, ConstantValue, StringFingerprint,
};
use crate::dump::answers::kind_name;
use crate::text::{
    chars_of, decimal_text, join_texts, same_text, slice_chars, slice_text, string_of, utf8_width,
};

use crate::diff::alpha;
use crate::dump::answers;
use crate::text;

verus! {

/// A text to compare with.
pub struct Comparison<'a> {
    pub path: &'a str,
    pub declarations: &'a Vec<Declaration>,
    /// The rows of matched declarations with their similarity numbers.
    pub matches: &'a Vec<(usize, usize, u64)>,
    /// The similarity of each declaration of the first text with its match,
    /// as it is shown.
    pub similarities: &'a Vec<String>,
}

/// What is inspected.
pub struct Inspection<'a> {
    pub path: &'a str,
    pub source: &'a str,
    pub identifier: &'a str,
    pub declarations: &'a Vec<Declaration>,
    pub comparison: Option<Comparison<'a>>,
}

/// Whether everything that is told of declarations is there.
pub open spec fn is_complete(i: Inspection<'_>) -> bool {
    i.comparison matches Some(c) ==> {
        &&& c.similarities@.len() == i.declarations@.len()
        &&& forall|k: int|
            #![trigger c.matches@[k]]
            0 <= k < c.matches@.len() ==> c.matches@[k].1 < c.declarations@.len()
    }
}

/// A number as it is shown.
pub open spec fn number(n: nat) -> Seq<char> {
    text::decimal_of(n)
}

/// The rows of the declarations with a name among the first `count`.
pub open spec fn named_upto(list: Seq<Declaration>, name: Seq<char>, count: int) -> Seq<int>
    decreases count,
{
    if count <= 0 {
        Seq::empty()
    } else {
        let ahead = named_upto(list, name, count - 1);
        if list[count - 1].name@ == name {
            ahead.push(count - 1)
        } else {
            ahead
        }
    }
}

/// The match of a row among the first `count` matches: the last one counts.
pub open spec fn partner_upto(matches: Seq<(usize, usize, u64)>, row: int, count: int) -> Option<
    int,
>
    decreases count,
{
    if count <= 0 {
        None
    } else if matches[count - 1].0 == row {
        Some(matches[count - 1].1 as int)
    } else {
        partner_upto(matches, row, count - 1)
    }
}

/// The match of a row.
pub open spec fn partner_of(matches: Seq<(usize, usize, u64)>, row: int) -> Option<int> {
    partner_upto(matches, row, matches.len() as int)
}

/// How many leading characters take up at most a number of bytes, from `i` on.
pub open spec fn fitting(part: Seq<char>, limit: int, i: int) -> int
    decreases part.len() - i,
{
    if 0 <= i < part.len() && text::bytes_before(part, i + 1) <= limit {
        fitting(part, limit, i + 1)
    } else {
        i
    }
}

/// The text of a declaration, cut behind 200 bytes.
pub open spec fn preview_of(source: Seq<char>, start: int, end: int) -> Seq<char> {
    let last = if end < encode_utf8(source).len() {
        end
    } else {
        encode_utf8(source).len() as int
    };
    if text::is_text_range(source, start, last) {
        let part = text::text_between(source, start, last);
        if encode_utf8(part).len() > 200 {
            part.take(fitting(part, 200, 0)) + "..."@
        } else {
            part
        }
    } else {
        Seq::empty()
    }
}

/// What is told of the match of a declaration.
pub open spec fn match_part(c: Comparison<'_>, d: Declaration, row: int) -> Seq<char> {
    "\nMatching Information:\n"@ + match partner_of(c.matches@, row) {
        Some(at) => {
            let other = c.declarations@[at];
            "  MATCHED to: "@ + other.name@ + " (line "@ + number(other.line as nat) + ") in "@
                + c.path@ + "\n"@ + (if d.name@ != other.name@ {
                "  NOTE: Different names! "@ + d.name@ + " -> "@ + other.name@ + "\n"@
            } else {
                Seq::empty()
            }) + "  Match similarity: calculating...\n  Structural similarity: "@
                + c.similarities@[row]@ + "%\n"@
        },
        None => "  NOT MATCHED - This declaration was removed or significantly changed\n"@,
    }
}

/// The first hashes.
pub open spec fn hashes_upto(hashes: Seq<u64>, count: int) -> Seq<char>
    decreases count,
{
    if count <= 0 {
        Seq::empty()
    } else {
        hashes_upto(hashes, count - 1) + ("  "@ + number(count as nat) + ": "@ + number(
            hashes[count - 1] as nat,
        ) + "\n"@)
    }
}

/// What is told of hashes.
pub open spec fn hashes_part(hashes: Seq<u64>) -> Seq<char> {
    "\nStructural hashes (showing first 10):\n"@ + (if hashes.len() > 10 {
        hashes_upto(hashes, 10) + ("  ... and "@ + number((hashes.len() - 10) as nat)
            + " more\n"@)
    } else {
        hashes_upto(hashes, hashes.len() as int)
    })
}

/// How many entries of a fingerprint are shown at most.
pub const SHOWN_ENTRIES: usize = 5;

/// The entries of a list that are shown.
pub open spec fn shown<T>(entries: Seq<T>) -> Seq<T> {
    if entries.len() > SHOWN_ENTRIES {
        entries.take(SHOWN_ENTRIES as int)
    } else {
        entries
    }
}

/// Entries in brackets.
pub open spec fn listed(entries: Seq<Seq<char>>) -> Seq<char> {
    "["@ + text::joined(entries, ", "@) + "]"@
}

/// A text in quotes, or that there is none.
pub open spec fn quoted_or_none(value: Option<Seq<char>>) -> Seq<char> {
    match value {
        Some(value) => "Some("@ + alpha::quoted(value) + ")"@,
        None => "None"@,
    }
}

/// A number with its sign.
pub open spec fn signed(value: int) -> Seq<char> {
    if value < 0 {
        "-"@ + number((0 - value) as nat)
    } else {
        number(value as nat)
    }
}

/// A constant of a fingerprint as it is shown.
pub open spec fn constant_entry(constant: ConstantFingerprint) -> Seq<char> {
    "ConstantFingerprint { value: "@ + (match constant.value {
        ConstantValue::Number(value) => "Number("@ + signed(value as int) + ")"@,
        ConstantValue::Float(value) => "Float("@ + alpha::quoted(value@) + ")"@,
        ConstantValue::Regex(value) => "Regex("@ + alpha::quoted(value@) + ")"@,
        ConstantValue::Duration(value) => "Duration("@ + number(value as nat) + ")"@,
    }) + " }"@
}

/// A call of a fingerprint as it is shown.
pub open spec fn call_entry(call: ApiCallFingerprint) -> Seq<char> {
    "ApiCallFingerprint { object: "@ + quoted_or_none(text::optional_view(call.object))
        + ", method: "@ + alpha::quoted(call.method@) + ", first_arg: "@ + quoted_or_none(
        text::optional_view(call.first_arg),
    ) + " }"@
}

/// The strings of a fingerprint as they are shown.
pub open spec fn strings_shown(strings: Seq<StringFingerprint>) -> Seq<char> {
    listed(shown(strings).map_values(|s: StringFingerprint| alpha::quoted(s.value@)))
}

/// The constants of a fingerprint as they are shown.
pub open spec fn constants_shown(constants: Seq<ConstantFingerprint>) -> Seq<char> {
    listed(shown(constants).map_values(|c: ConstantFingerprint| constant_entry(c)))
}

/// The calls of a fingerprint as they are shown.
pub open spec fn calls_shown(calls: Seq<ApiCallFingerprint>) -> Seq<char> {
    listed(shown(calls).map_values(|c: ApiCallFingerprint| call_entry(c)))
}

/// What is told of a fingerprint: how many strings, constants and calls it has,
/// and the first of each.
pub open spec fn fingerprint_part(d: Declaration) -> Seq<char> {
    match d.fingerprint {
        None => Seq::empty(),
        Some(f) => "\nFingerprint:\n  Strings ("@ + number(f.strings@.len()) + "): "@
            + strings_shown(f.strings@) + "\n  Constants ("@ + number(f.constants@.len()) + "): "@
            + constants_shown(f.constants@) + "\n  API calls ("@ + number(f.api_calls@.len())
            + "): "@ + calls_shown(f.api_calls@) + "\n"@,
    }
}

/// What is told of a declaration without its match.
pub open spec fn head_part(i: Inspection<'_>, d: Declaration, ordinal: nat) -> Seq<char> {
    "=== Declaration #"@ + number(ordinal) + " ===\nFile: "@ + i.path@ + "\nName: "@ + d.name@
        + "\nKind: "@ + answers::kind_name_of(d.kind) + "\nLine: "@ + number(d.line as nat)
        + "\nSize (structural hashes): "@ + number(d.size as nat) + "\nSignature: "@
        + d.signature@ + "\n"@
}

/// What is told of the syntax and the text of a declaration.
pub open spec fn tail_part(i: Inspection<'_>, d: Declaration) -> Seq<char> {
    "\nAST Node:\n  Kind: "@ + d.node_kind@ + "\n  Start line: "@ + number(d.line as nat)
        + "\n  End line: "@ + number(d.end_line as nat) + "\n\nSource preview:\n"@ + preview_of(
        i.source@,
        d.start_byte as int,
        d.end_byte as int,
    ) + "\n"@
}

/// What is told of a declaration.
pub open spec fn entry_of(i: Inspection<'_>, row: int, ordinal: nat) -> Seq<char> {
    let d = i.declarations@[row];
    head_part(i, d, ordinal) + (match i.comparison {
        Some(c) => match_part(c, d, row),
        None => Seq::empty(),
    }) + hashes_part(d.structural_hashes@) + fingerprint_part(d) + tail_part(i, d)
}

/// What is told of the first `count` declarations with the name.
pub open spec fn entries_upto(i: Inspection<'_>, rows: Seq<int>, count: int) -> Seq<char>
    decreases count,
{
    if count <= 0 {
        Seq::empty()
    } else {
        entries_upto(i, rows, count - 1) + entry_of(i, rows[count - 1], count as nat) + if count
            < rows.len() {
            "\n\n"@
        } else {
            Seq::empty()
        }
    }
}

/// Whether a row of the other text is the match of one of some rows.
pub open spec fn is_partner(matches: Seq<(usize, usize, u64)>, rows: Seq<int>, at: int) -> bool {
    exists|k: int| 0 <= k < rows.len() && #[trigger] partner_of(matches, rows[k]) == Some(at)
}

/// What is told of the declarations of the other text with the name, among the
/// first `count`, that are no match of a declaration that was told.
pub open spec fn others_upto(c: Comparison<'_>, name: Seq<char>, rows: Seq<int>, count: int) -> Seq<
    char,
>
    decreases count,
{
    if count <= 0 {
        Seq::empty()
    } else {
        let ahead = others_upto(c, name, rows, count - 1);
        let d = c.declarations@[count - 1];
        if d.name@ == name && !is_partner(c.matches@, rows, count - 1) {
            ahead + ("\n- "@ + d.name@ + " (line "@ + number(d.line as nat)
                + ") - NOT MATCHED (new declaration)\n"@)
        } else {
            ahead
        }
    }
}

/// How many declarations [`others_upto`] tells of.
pub open spec fn other_count(c: Comparison<'_>, name: Seq<char>, rows: Seq<int>, count: int) -> nat
    decreases count,
{
    if count <= 0 {
        0
    } else {
        other_count(c, name, rows, count - 1) + if c.declarations@[count - 1].name@ == name
            && !is_partner(c.matches@, rows, count - 1) {
            1nat
        } else {
            0
        }
    }
}

/// What is told of the other text.
pub open spec fn others_part(c: Comparison<'_>, name: Seq<char>, rows: Seq<int>) -> Seq<char> {
    let total = c.declarations@.len() as int;
    if other_count(c, name, rows, total) > 0 {
        "\n\nAdditional declarations with identifier '"@ + name + "' in "@ + c.path@ + ":\n"@
            + others_upto(c, name, rows, total)
    } else {
        Seq::empty()
    }
}

/// What is told of the declarations with the name.
pub open spec fn inspected(i: Inspection<'_>) -> Seq<char> {
    let rows = named_upto(i.declarations@, i.identifier@, i.declarations@.len() as int);
    if rows.len() == 0 {
        "No declarations found with identifier '"@ + i.identifier@ + "' in "@ + i.path@ + "\n"@
    } else {
        "Found "@ + number(rows.len()) + " declaration(s) with identifier '"@ + i.identifier@
            + "' in "@ + i.path@ + ":\n\n"@ + entries_upto(i, rows, rows.len() as int) + (
        match i.comparison {
            Some(c) => others_part(c, i.identifier@, rows),
            None => Seq::empty(),
        })
    }
}

fn show(n: usize) -> (r: String)
    ensures
        r@ == number(n as nat),
{
    decimal_text(n as u64)
}

/// Row numbers seen as integers.
pub open spec fn row_views(rows: Seq<usize>) -> Seq<int> {
    rows.map_values(|row: usize| row as int)
}

fn find_rows(list: &Vec<Declaration>, name: &str) -> (rows: Vec<usize>)
    ensures
        row_views(rows@) == named_upto(list@, name@, list@.len() as int),
        forall|k: int| 0 <= k < rows@.len() ==> (#[trigger] rows@[k]) < list@.len(),
{
    let mut rows: Vec<usize> = Vec::new();
    let mut i: usize = 0;
    assert(row_views(rows@) =~= Seq::empty());
    while i < list.len()
        invariant
            i <= list@.len(),
            row_views(rows@) == named_upto(list@, name@, i as int),
            forall|k: int| 0 <= k < rows@.len() ==> (#[trigger] rows@[k]) < i,
        decreases list@.len() - i,
    {
        if same_text(list[i].name.as_str(), name) {
            let ghost before = rows@;
            rows.push(i);
            assert(row_views(rows@) =~= row_views(before).push(i as int));
        }
        i += 1;
    }
    rows
}

fn find_partner(matches: &Vec<(usize, usize, u64)>, row: usize) -> (r: Option<usize>)
    ensures
        match (r, partner_of(matches@, row as int)) {
            (Some(a), Some(b)) => a == b && exists|k: int|
                0 <= k < matches@.len() && (#[trigger] matches@[k]).1 == a,
            (None, None) => true,
            _ => false,
        },
{
    let mut i: usize = matches.len();
    while i > 0
        invariant
            i <= matches@.len(),
            partner_of(matches@, row as int) == partner_upto(matches@, row as int, i as int),
        decreases i,
    {
        if matches[i - 1].0 == row {
            assert(matches@[i - 1].1 == matches@[i - 1].1);
            return Some(matches[i - 1].1);
        }
        i -= 1;
    }
    None
}

fn show_preview(source: &str, start: usize, end: usize) -> (r: String)
    ensures
        r@ == preview_of(source@, start as int, end as int),
{
    let length: usize = source.as_bytes().len();
    let last = if end < length {
        end
    } else {
        length
    };
    match slice_text(source, start, last) {
        None => String::new(),
        Some(part) => {
            if part.as_bytes().len() <= 200 {
                return part.to_string();
            }
            let characters = chars_of(part);
            let mut used: usize = 0;
            let mut i: usize = 0;
            assert(characters@ == part@);
            assert(part@.take(0) =~= Seq::empty());
            assert(encode_utf8(part@.take(0)).len() == 0);
            loop
                invariant
                    characters@ == part@,
                    i <= characters@.len(),
                    used <= 200,
                    used == text::bytes_before(part@, i as int),
                    fitting(part@, 200, 0) == fitting(part@, 200, i as int),
                ensures
                    fitting(part@, 200, 0) == i,
                    i <= characters@.len(),
                decreases characters@.len() - i,
            {
                if i >= characters.len() {
                    break;
                }
                proof {
                    text::lemma_bytes_before_step(part@, i as int);
                }
                let width: usize = utf8_width(characters[i]);
                if used + width > 200 {
                    break;
                }
                used = used + width;
                i += 1;
            }
            let kept = slice_chars(&characters, 0, i);
            assert(kept@ =~= part@.take(i as int));
            string_of(&kept).concat("...")
        },
    }
}

fn show_match(c: &Comparison<'_>, d: &Declaration, row: usize) -> (r: String)
    requires
        row < c.similarities@.len(),
        forall|k: int|
            #![trigger c.matches@[k]]
            0 <= k < c.matches@.len() ==> c.matches@[k].1 < c.declarations@.len(),
    ensures
        r@ == match_part(*c, *d, row as int),
{
    let body = match find_partner(c.matches, row) {
        Some(at) => {
            let other = &c.declarations[at];
            let note = if !same_text(d.name.as_str(), other.name.as_str()) {
                "  NOTE: Different names! ".to_string().concat(d.name.as_str()).concat(
                    " -> ",
                ).concat(other.name.as_str()).concat("\n")
            } else {
                String::new()
            };
            "  MATCHED to: ".to_string().concat(other.name.as_str()).concat(" (line ").concat(
                show(other.line).as_str(),
            ).concat(") in ").concat(c.path).concat("\n").concat(note.as_str()).concat(
                "  Match similarity: calculating...\n  Structural similarity: ",
            ).concat(c.similarities[row].as_str()).concat("%\n")
        },
        None =>
            "  NOT MATCHED - This declaration was removed or significantly changed\n".to_string(),
    };
    "\nMatching Information:\n".to_string().concat(body.as_str())
}

fn show_hashes(hashes: &Vec<u64>) -> (r: String)
    ensures
        r@ == hashes_part(hashes@),
{
    let total: usize = if hashes.len() > 10 {
        10
    } else {
        hashes.len()
    };
    let mut list = String::new();
    let mut i: usize = 0;
    assert(list@ =~= hashes_upto(hashes@, 0));
    while i < total
        invariant
            total <= hashes@.len(),
            i <= total,
            list@ == hashes_upto(hashes@, i as int),
        decreases total - i,
    {
        let line = "  ".to_string().concat(show(i + 1).as_str()).concat(": ").concat(
            decimal_text(hashes[i]).as_str(),
        ).concat("\n");
        list = list.concat(line.as_str());
        i += 1;
    }
    if hashes.len() > 10 {
        let more = "  ... and ".to_string().concat(show(hashes.len() - 10).as_str()).concat(
            " more\n",
        );
        list = list.concat(more.as_str());
    }
    "\nStructural hashes (showing first 10):\n".to_string().concat(list.as_str())
}

fn shown_count(total: usize) -> (count: usize)
    ensures
        count == (if total > SHOWN_ENTRIES {
            SHOWN_ENTRIES
        } else {
            total
        }),
{
    if total > SHOWN_ENTRIES {
        SHOWN_ENTRIES
    } else {
        total
    }
}

fn show_list(entries: &Vec<String>) -> (r: String)
    ensures
        r@ == listed(text::views(entries@)),
{
    "[".to_string().concat(join_texts(entries, ", ").as_str()).concat("]")
}

fn show_optional(value: &Option<String>) -> (r: String)
    ensures
        r@ == quoted_or_none(text::optional_view(*value)),
{
    match value {
        Some(value) => "Some(".to_string().concat(quote(value.as_str()).as_str()).concat(")"),
        None => "None".to_string(),
    }
}

fn show_signed(value: i64) -> (r: String)
    ensures
        r@ == signed(value as int),
{
    if value < 0 {
        let size: u64 = (0 - value as i128) as u64;
        "-".to_string().concat(decimal_text(size).as_str())
    } else {
        decimal_text(value as u64)
    }
}

fn show_constant(constant: &ConstantFingerprint) -> (r: String)
    ensures
        r@ == constant_entry(*constant),
{
    let value = match &constant.value {
        ConstantValue::Number(value) => "Number(".to_string().concat(
            show_signed(*value).as_str(),
        ).concat(")"),
        ConstantValue::Float(value) => "Float(".to_string().concat(
            quote(value.as_str()).as_str(),
        ).concat(")"),
        ConstantValue::Regex(value) => "Regex(".to_string().concat(
            quote(value.as_str()).as_str(),
        ).concat(")"),
        ConstantValue::Duration(value) => "Duration(".to_string().concat(
            decimal_text(*value).as_str(),
        ).concat(")"),
    };
    "ConstantFingerprint { value: ".to_string().concat(value.as_str()).concat(" }")
}

fn show_call(call: &ApiCallFingerprint) -> (r: String)
    ensures
        r@ == call_entry(*call),
{
    "ApiCallFingerprint { object: ".to_string().concat(
        show_optional(&call.object).as_str(),
    ).concat(", method: ").concat(quote(call.method.as_str()).as_str()).concat(
        ", first_arg: ",
    ).concat(show_optional(&call.first_arg).as_str()).concat(" }")
}

fn show_strings(strings: &Vec<StringFingerprint>) -> (r: String)
    ensures
        r@ == strings_shown(strings@),
{
    let total = shown_count(strings.len());
    let mut entries: Vec<String> = Vec::new();
    let mut k: usize = 0;
    while k < total
        invariant
            total <= strings@.len(),
            k <= total,
            entries@.len() == k,
            forall|j: int|
                0 <= j < k ==> (#[trigger] entries@[j])@ == alpha::quoted(strings@[j].value@),
        decreases total - k,
    {
        entries.push(quote(strings[k].value.as_str()));
        k += 1;
    }
    assert(text::views(entries@) =~= shown(strings@).map_values(
        |e: StringFingerprint| alpha::quoted(e.value@),
    ));
    show_list(&entries)
}

fn show_constants(constants: &Vec<ConstantFingerprint>) -> (r: String)
    ensures
        r@ == constants_shown(constants@),
{
    let total = shown_count(constants.len());
    let mut entries: Vec<String> = Vec::new();
    let mut k: usize = 0;
    while k < total
        invariant
            total <= constants@.len(),
            k <= total,
            entries@.len() == k,
            forall|j: int|
                0 <= j < k ==> (#[trigger] entries@[j])@ == constant_entry(constants@[j]),
        decreases total - k,
    {
        entries.push(show_constant(&constants[k]));
        k += 1;
    }
    assert(text::views(entries@) =~= shown(constants@).map_values(
        |e: ConstantFingerprint| constant_entry(e),
    ));
    show_list(&entries)
}

fn show_calls(calls: &Vec<ApiCallFingerprint>) -> (r: String)
    ensures
        r@ == calls_shown(calls@),
{
    let total = shown_count(calls.len());
    let mut entries: Vec<String> = Vec::new();
    let mut k: usize = 0;
    while k < total
        invariant
            total <= calls@.len(),
            k <= total,
            entries@.len() == k,
            forall|j: int| 0 <= j < k ==> (#[trigger] entries@[j])@ == call_entry(calls@[j]),
        decreases total - k,
    {
        entries.push(show_call(&calls[k]));
        k += 1;
    }
    assert(text::views(entries@) =~= shown(calls@).map_values(
        |e: ApiCallFingerprint| call_entry(e),
    ));
    show_list(&entries)
}

fn show_fingerprint(d: &Declaration) -> (r: String)
    ensures
        r@ == fingerprint_part(*d),
{
    match &d.fingerprint {
        None => String::new(),
        Some(f) => "\nFingerprint:\n  Strings (".to_string().concat(
            show(f.strings.len()).as_str(),
        ).concat("): ").concat(show_strings(&f.strings).as_str()).concat(
            "\n  Constants (",
        ).concat(show(f.constants.len()).as_str()).concat("): ").concat(
            show_constants(&f.constants).as_str(),
        ).concat("\n  API calls (").concat(show(f.api_calls.len()).as_str()).concat("): ").concat(
            show_calls(&f.api_calls).as_str(),
        ).concat("\n"),
    }
}

fn show_entry(i: &Inspection<'_>, row: usize, ordinal: usize) -> (r: String)
    requires
        is_complete(*i),
        row < i.declarations@.len(),
    ensures
        r@ == entry_of(*i, row as int, ordinal as nat),
{
    let d = &i.declarations[row];
    let head = "=== Declaration #".to_string().concat(show(ordinal).as_str()).concat(
        " ===\nFile: ",
    ).concat(i.path).concat("\nName: ").concat(d.name.as_str()).concat("\nKind: ").concat(
        kind_name(d.kind),
    ).concat("\nLine: ").concat(show(d.line).as_str()).concat(
        "\nSize (structural hashes): ",
    ).concat(show(d.size).as_str()).concat("\nSignature: ").concat(
        d.signature.as_str(),
    ).concat("\n");
    let matched = match &i.comparison {
        Some(c) => show_match(c, d, row),
        None => String::new(),
    };
    let tail = "\nAST Node:\n  Kind: ".to_string().concat(d.node_kind).concat(
        "\n  Start line: ",
    ).concat(show(d.line).as_str()).concat("\n  End line: ").concat(
        show(d.end_line).as_str(),
    ).concat("\n\nSource preview:\n").concat(
        show_preview(i.source, d.start_byte, d.end_byte).as_str(),
    ).concat("\n");
    head.concat(matched.as_str()).concat(show_hashes(&d.structural_hashes).as_str()).concat(
        show_fingerprint(d).as_str(),
    ).concat(tail.as_str())
}

fn has_partner(matches: &Vec<(usize, usize, u64)>, rows: &Vec<usize>, at: usize) -> (r: bool)
    ensures
        r == is_partner(matches@, row_views(rows@), at as int),
{
    let ghost all = row_views(rows@);
    let mut k: usize = 0;
    while k < rows.len()
        invariant
            all == row_views(rows@),
            k <= rows@.len(),
            forall|j: int| 0 <= j < k ==> #[trigger] partner_of(matches@, all[j]) != Some(at as int),
        decreases rows@.len() - k,
    {
        assert(all[k as int] == rows@[k as int] as int);
        if let Some(found) = find_partner(matches, rows[k]) {
            if found == at {
                assert(partner_of(matches@, all[k as int]) == Some(at as int));
                return true;
            }
        }
        k += 1;
    }
    false
}

fn show_others(c: &Comparison<'_>, name: &str, rows: &Vec<usize>) -> (r: String)
    ensures
        r@ == others_part(*c, name@, row_views(rows@)),
{
    let ghost all = row_views(rows@);
    let mut list = String::new();
    let mut found = false;
    let mut i: usize = 0;
    assert(list@ =~= others_upto(*c, name@, all, 0));
    while i < c.declarations.len()
        invariant
            all == row_views(rows@),
            i <= c.declarations@.len(),
            list@ == others_upto(*c, name@, all, i as int),
            found == (other_count(*c, name@, all, i as int) > 0),
        decreases c.declarations@.len() - i,
    {
        let d = &c.declarations[i];
        if same_text(d.name.as_str(), name) && !has_partner(c.matches, rows, i) {
            let line = "\n- ".to_string().concat(d.name.as_str()).concat(" (line ").concat(
                show(d.line).as_str(),
            ).concat(") - NOT MATCHED (new declaration)\n");
            list = list.concat(line.as_str());
            found = true;
        }
        i += 1;
    }
    if found {
        "\n\nAdditional declarations with identifier '".to_string().concat(name).concat(
            "' in ",
        ).concat(c.path).concat(":\n").concat(list.as_str())
    } else {
        String::new()
    }
}

/// Tells of the declarations with a name.
pub fn inspect(i: &Inspection<'_>) -> (r: String)
    requires
        is_complete(*i),
    ensures
        r@ == inspected(*i),
{
    let rows = find_rows(i.declarations, i.identifier);
    let ghost all = row_views(rows@);
    if rows.len() == 0 {
        return "No declarations found with identifier '".to_string().concat(i.identifier).concat(
            "' in ",
        ).concat(i.path).concat("\n");
    }
    let mut entries = String::new();
    let mut k: usize = 0;
    assert(entries@ =~= entries_upto(*i, all, 0));
    while k < rows.len()
        invariant
            is_complete(*i),
            all == row_views(rows@),
            forall|k: int| 0 <= k < rows@.len() ==> (#[trigger] rows@[k]) < i.declarations@.len(),
            k <= rows@.len(),
            entries@ == entries_upto(*i, all, k as int),
        decreases rows@.len() - k,
    {
        assert(all[k as int] == rows@[k as int] as int);
        let between = if k + 1 < rows.len() {
            "\n\n".to_string()
        } else {
            String::new()
        };
        let entry = show_entry(i, rows[k], k + 1);
        entries = entries.concat(entry.as_str()).concat(between.as_str());
        k += 1;
    }
    let others = match &i.comparison {
        Some(c) => show_others(c, i.identifier, &rows),
        None => String::new(),
    };
    "Found ".to_string().concat(show(rows.len()).as_str()).concat(
        " declaration(s) with identifier '",
    ).concat(i.identifier).concat("' in ").concat(i.path).concat(":\n\n").concat(
        entries.as_str(),
    ).concat(others.as_str())
}

} // verus!
