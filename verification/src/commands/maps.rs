//! What is told of the origins of a position.

use vstd::prelude::*;
use vstd::string::*;

use crate::json::{array_text, json_string, number_text, row_text};
use crate::sourcemap::{OriginalModel, OriginalPosition};
use crate::text::decimal_text;

use crate::{json, sourcemap, text};

verus! {

/// A text as a JSON string, or that there is none.
pub open spec fn text_or_null(value: Option<Seq<char>>) -> Seq<char> {
    match value {
        Some(value) => json::string_of(value),
        None => "null"@,
    }
}

/// The numbers of an origin as fields of a JSON object, in the order of their
/// names, and between them the texts behind the numbers where they are asked
/// for.
pub open spec fn fields_of(origin: OriginalModel, with_names: bool) -> Seq<char> {
    if with_names {
        "\"name\":"@ + text_or_null(origin.name) + ",\"name_index\":"@ + json::row_of(
            origin.name_index,
        ) + ",\"original_column\":"@ + text::decimal_of(origin.column as nat)
            + ",\"original_line\":"@ + text::decimal_of(origin.line as nat) + ",\"source\":"@
            + text_or_null(origin.source) + ",\"source_index\":"@ + text::decimal_of(
            origin.source_index as nat,
        ) + ",\"source_root\":"@ + text_or_null(origin.source_root)
    } else {
        "\"name_index\":"@ + json::row_of(origin.name_index) + ",\"original_column\":"@
            + text::decimal_of(origin.column as nat) + ",\"original_line\":"@ + text::decimal_of(
            origin.line as nat,
        ) + ",\"source_index\":"@ + text::decimal_of(origin.source_index as nat)
    }
}

/// An origin as a JSON object.
pub open spec fn origin_of(origin: OriginalModel, with_names: bool) -> Seq<char> {
    "{"@ + fields_of(origin, with_names) + "}"@
}

/// Origins as JSON objects.
pub open spec fn origins_of(origins: Seq<OriginalModel>, with_names: bool) -> Seq<Seq<char>> {
    origins.map_values(|origin: OriginalModel| origin_of(origin, with_names))
}

/// What every answer starts with: lines and columns count from zero, columns
/// in UTF-16 code units.
pub open spec fn basis() -> Seq<char> {
    "{\"coordinate_basis\":\"zero_based_utf16\""@
}

/// What is told of origins, as JSON: that there is none, the only one, or how
/// many there are and each of them.
pub open spec fn positions_text(origins: Seq<OriginalModel>, with_names: bool) -> Seq<char> {
    if origins.len() == 0 {
        basis() + ",\"mapping\":\"unmapped\"}"@
    } else if origins.len() == 1 {
        basis() + ",\"mapping\":\"mapped\","@ + fields_of(origins[0], with_names) + "}"@
    } else {
        basis() + ",\"count\":"@ + text::decimal_of(origins.len())
            + ",\"mapping\":\"ambiguous\",\"positions\":"@ + json::array_of(
            origins_of(origins, with_names),
        ) + "}"@
    }
}

fn show_text(value: &Option<String>) -> (r: String)
    ensures
        r@ == text_or_null(text::optional_view(*value)),
{
    match value {
        Some(value) => json_string(value.as_str()),
        None => "null".to_string(),
    }
}

fn show_fields(position: &OriginalPosition, with_names: bool) -> (r: String)
    ensures
        r@ == fields_of(position@, with_names),
{
    if with_names {
        "\"name\":".to_string()
            .concat(show_text(&position.name).as_str())
            .concat(",\"name_index\":")
            .concat(row_text(position.name_index).as_str())
            .concat(",\"original_column\":")
            .concat(number_text(position.column).as_str())
            .concat(",\"original_line\":")
            .concat(number_text(position.line).as_str())
            .concat(",\"source\":")
            .concat(show_text(&position.source).as_str())
            .concat(",\"source_index\":")
            .concat(number_text(position.source_index).as_str())
            .concat(",\"source_root\":")
            .concat(show_text(&position.source_root).as_str())
    } else {
        "\"name_index\":".to_string()
            .concat(row_text(position.name_index).as_str())
            .concat(",\"original_column\":")
            .concat(number_text(position.column).as_str())
            .concat(",\"original_line\":")
            .concat(number_text(position.line).as_str())
            .concat(",\"source_index\":")
            .concat(number_text(position.source_index).as_str())
    }
}

fn show_origins(positions: &Vec<OriginalPosition>, with_names: bool) -> (r: Vec<String>)
    ensures
        text::views(r@) == origins_of(sourcemap::position_views(positions@), with_names),
{
    let ghost origins = sourcemap::position_views(positions@);
    let mut r: Vec<String> = Vec::new();
    let mut i: usize = 0;
    while i < positions.len()
        invariant
            origins == sourcemap::position_views(positions@),
            origins.len() == positions@.len(),
            i <= positions@.len(),
            r@.len() == i,
            forall|k: int|
                0 <= k < i ==> (#[trigger] r@[k])@ == origin_of(origins[k], with_names),
        decreases positions@.len() - i,
    {
        assert(origins[i as int] == positions@[i as int]@);
        r.push(
            "{".to_string().concat(show_fields(&positions[i], with_names).as_str()).concat("}"),
        );
        i += 1;
    }
    assert(text::views(r@) =~= origins_of(origins, with_names));
    r
}

/// Tells of origins as JSON, with the texts behind their numbers where asked
/// for.
pub fn source_map_positions_json(
    positions: &Vec<OriginalPosition>,
    include_source_names: bool,
) -> (r: String)
    ensures
        r@ == positions_text(sourcemap::position_views(positions@), include_source_names),
{
    let start = "{\"coordinate_basis\":\"zero_based_utf16\"".to_string();
    if positions.len() == 0 {
        start.concat(",\"mapping\":\"unmapped\"}")
    } else if positions.len() == 1 {
        start.concat(",\"mapping\":\"mapped\",").concat(
            show_fields(&positions[0], include_source_names).as_str(),
        ).concat("}")
    } else {
        start.concat(",\"count\":").concat(decimal_text(positions.len() as u64).as_str()).concat(
            ",\"mapping\":\"ambiguous\",\"positions\":",
        ).concat(
            array_text(&show_origins(positions, include_source_names)).as_str(),
        ).concat("}")
    }
}

/// Whether two origins have the same numbers.
pub open spec fn same_numbers(a: OriginalModel, b: OriginalModel) -> bool {
    &&& a.source_index == b.source_index
    &&& a.line == b.line
    &&& a.column == b.column
    &&& a.name_index == b.name_index
}

/// Names of sources and of symbols stay out unless they are asked for: origins
/// with the same numbers are told alike.
pub proof fn law_source_names_stay_out(a: Seq<OriginalModel>, b: Seq<OriginalModel>)
    requires
        a.len() == b.len(),
        forall|i: int| 0 <= i < a.len() ==> same_numbers(#[trigger] a[i], b[i]),
    ensures
        positions_text(a, false) == positions_text(b, false),
{
    assert forall|i: int| 0 <= i < a.len() implies #[trigger] fields_of(a[i], false) == fields_of(
        b[i],
        false,
    ) by {
        assert(same_numbers(a[i], b[i]));
    }
    assert(origins_of(a, false) =~= origins_of(b, false)) by {
        assert forall|i: int| 0 <= i < a.len() implies #[trigger] origins_of(a, false)[i]
            == origins_of(b, false)[i] by {
            assert(fields_of(a[i], false) == fields_of(b[i], false));
        }
    }
    if a.len() == 1 {
        assert(fields_of(a[0], false) == fields_of(b[0], false));
    }
}

/// Every answer states the coordinate basis first, and then whether there is
/// no origin, one or several; several are counted and listed in order.
pub proof fn law_answers_state_what_was_found(origins: Seq<OriginalModel>, with_names: bool)
    ensures
        positions_text(origins, with_names).take(basis().len() as int) == basis(),
        ({
            let rest = positions_text(origins, with_names).skip(basis().len() as int);
            if origins.len() == 0 {
                rest == ",\"mapping\":\"unmapped\"}"@
            } else if origins.len() == 1 {
                rest == ",\"mapping\":\"mapped\","@ + fields_of(origins[0], with_names) + "}"@
            } else {
                rest == ",\"count\":"@ + text::decimal_of(origins.len())
                    + ",\"mapping\":\"ambiguous\",\"positions\":"@ + json::array_of(
                    origins.map_values(|origin: OriginalModel| origin_of(origin, with_names)),
                ) + "}"@
            }
        }),
{
    let whole = positions_text(origins, with_names);
    let n = basis().len() as int;
    assert(whole.take(n) =~= basis());
    if origins.len() == 0 {
        assert(whole.skip(n) =~= ",\"mapping\":\"unmapped\"}"@);
    } else if origins.len() == 1 {
        assert(whole.skip(n) =~= ",\"mapping\":\"mapped\","@ + fields_of(origins[0], with_names)
            + "}"@);
    } else {
        assert(whole.skip(n) =~= ",\"count\":"@ + text::decimal_of(origins.len())
            + ",\"mapping\":\"ambiguous\",\"positions\":"@ + json::array_of(
            origins_of(origins, with_names),
        ) + "}"@);
    }
}

} // verus!
