//! What a fingerprint holds of a function.

use vstd::prelude::*;
use vstd::utf8::*;

use super::fingerprint::{ConstantModel, FingerprintModel};
use crate::syntax::RowModel;

use super::fingerprint;
use super::fingerprint::{with_node, with_nodes};
use crate::{pretty, syntax, text};

verus! {

/// Whether a fingerprint has all that another one has.
pub open spec fn has_all_of(f: FingerprintModel, g: FingerprintModel) -> bool {
    &&& g.strings.len() <= f.strings.len() && f.strings.take(g.strings.len() as int) == g.strings
    &&& g.constants.len() <= f.constants.len() && f.constants.take(g.constants.len() as int)
        == g.constants
    &&& g.api_calls.len() <= f.api_calls.len() && f.api_calls.take(g.api_calls.len() as int)
        == g.api_calls
    &&& g.size <= f.size
}

/// Whether a fingerprint holds what a node shows: a string or template of more
/// than two bytes that is not blank, a number that counts, a regular
/// expression, or a call that counts.
pub open spec fn holds_node(
    f: FingerprintModel,
    rows: Seq<RowModel>,
    source: Seq<char>,
    n: int,
) -> bool {
    let kind = rows[n].kind;
    let spelling = syntax::text_of(rows, source, n);
    &&& kind == "string"@ || kind == "template_string"@ ==> (fingerprint::string_value(
        fingerprint::literal_text(rows, source, n),
    ) matches Some(value) ==> (encode_utf8(value).len() > 2 && !fingerprint::is_blank(value)
        ==> exists|k: int|
        0 <= k < f.strings.len() && (#[trigger] f.strings[k]).value == value
            && f.strings[k].context == fingerprint::context_of(value)))
    &&& kind == "number"@ ==> (fingerprint::number_constant(spelling) matches Some(value)
        ==> f.constants.contains(value))
    &&& kind == "regex"@ ==> f.constants.contains(ConstantModel::Regex(spelling))
    &&& kind == "call_expression"@ ==> (fingerprint::api_call(rows, source, n) matches Some(call)
        ==> f.api_calls.contains(call))
}

proof fn lemma_kinds_differ()
    ensures
        "string"@ != "number"@,
        "string"@ != "regex"@,
        "string"@ != "call_expression"@,
        "template_string"@ != "number"@,
        "template_string"@ != "regex"@,
        "template_string"@ != "call_expression"@,
        "number"@ != "regex"@,
        "number"@ != "call_expression"@,
        "regex"@ != "call_expression"@,
{
    reveal_strlit("string");
    reveal_strlit("template_string");
    reveal_strlit("number");
    reveal_strlit("regex");
    reveal_strlit("call_expression");
    assert("string"@.len() == 6 && "string"@[0] == 's');
    assert("number"@.len() == 6 && "number"@[0] == 'n');
    assert("regex"@.len() == 5);
    assert("template_string"@.len() == 15 && "template_string"@[0] == 't');
    assert("call_expression"@.len() == 15 && "call_expression"@[0] == 'c');
}

proof fn lemma_more_holds_too(
    f: FingerprintModel,
    g: FingerprintModel,
    rows: Seq<RowModel>,
    source: Seq<char>,
    n: int,
)
    requires
        has_all_of(f, g),
        holds_node(g, rows, source, n),
    ensures
        holds_node(f, rows, source, n),
{
    assert forall|k: int| 0 <= k < g.strings.len() implies #[trigger] g.strings[k]
        == f.strings[k] by {
        assert(f.strings.take(g.strings.len() as int)[k] == g.strings[k]);
    }
    assert forall|x: ConstantModel| #[trigger] g.constants.contains(x) implies f.constants.contains(
        x,
    ) by {
        let k = choose|k: int| 0 <= k < g.constants.len() && g.constants[k] == x;
        assert(f.constants.take(g.constants.len() as int)[k] == g.constants[k]);
        assert(f.constants[k] == x);
    }
    assert forall|x: fingerprint::ApiCallModel| #[trigger] g.api_calls.contains(x) implies
        f.api_calls.contains(x) by {
        let k = choose|k: int| 0 <= k < g.api_calls.len() && g.api_calls[k] == x;
        assert(f.api_calls.take(g.api_calls.len() as int)[k] == g.api_calls[k]);
        assert(f.api_calls[k] == x);
    }
    let kind = rows[n].kind;
    if kind == "string"@ || kind == "template_string"@ {
        if let Some(value) = fingerprint::string_value(
            fingerprint::literal_text(rows, source, n),
        ) {
            if encode_utf8(value).len() > 2 && !fingerprint::is_blank(value) {
                let k = choose|k: int|
                    0 <= k < g.strings.len() && (#[trigger] g.strings[k]).value == value
                        && g.strings[k].context == fingerprint::context_of(value);
                assert(f.strings[k] == g.strings[k]);
            }
        }
    }
}

proof fn lemma_has_all_adds_up(f: FingerprintModel, g: FingerprintModel, h: FingerprintModel)
    requires
        has_all_of(f, g),
        has_all_of(g, h),
    ensures
        has_all_of(f, h),
{
    assert(f.strings.take(h.strings.len() as int) =~= f.strings.take(
        g.strings.len() as int,
    ).take(h.strings.len() as int));
    assert(f.constants.take(h.constants.len() as int) =~= f.constants.take(
        g.constants.len() as int,
    ).take(h.constants.len() as int));
    assert(f.api_calls.take(h.api_calls.len() as int) =~= f.api_calls.take(
        g.api_calls.len() as int,
    ).take(h.api_calls.len() as int));
}

proof fn lemma_node(f: FingerprintModel, rows: Seq<RowModel>, source: Seq<char>, n: int)
    ensures
        has_all_of(with_node(f, rows, source, n), f),
        holds_node(with_node(f, rows, source, n), rows, source, n),
        with_node(f, rows, source, n).size == f.size + 1,
{
    lemma_kinds_differ();
    let g = with_node(f, rows, source, n);
    assert(g.strings.take(f.strings.len() as int) =~= f.strings);
    assert(g.constants.take(f.constants.len() as int) =~= f.constants);
    assert(g.api_calls.take(f.api_calls.len() as int) =~= f.api_calls);
    if g.strings.len() > f.strings.len() {
        assert(g.strings[f.strings.len() as int] == g.strings.last());
    }
    if g.constants.len() > f.constants.len() {
        assert(g.constants[f.constants.len() as int] == g.constants.last());
    }
    if g.api_calls.len() > f.api_calls.len() {
        assert(g.api_calls[f.api_calls.len() as int] == g.api_calls.last());
    }
}

/// Whether no comment from a row on holds a node.
pub open spec fn is_no_comment(rows: Seq<RowModel>, from: int, n: int) -> bool {
    forall|c: int|
        from <= c <= n && (#[trigger] rows[c]).kind == "comment"@ ==> pretty::behind(rows, c) <= n
}

proof fn lemma_behind(rows: Seq<RowModel>, i: int, from: int)
    requires
        from <= rows.len(),
    ensures
        from <= crate::parser::subtree_end(rows, i, from) <= rows.len(),
    decreases rows.len() - from,
{
    if from < rows.len() {
        lemma_behind(rows, i, from + 1);
    }
}

proof fn lemma_nodes(
    f: FingerprintModel,
    rows: Seq<RowModel>,
    source: Seq<char>,
    from: int,
    end: int,
    n: int,
)
    requires
        0 <= from,
        end <= rows.len(),
    ensures
        has_all_of(with_nodes(f, rows, source, from, end), f),
        from <= n < end && is_no_comment(rows, from, n) ==> holds_node(
            with_nodes(f, rows, source, from, end),
            rows,
            source,
            n,
        ),
    decreases end - from,
{
    let g = with_nodes(f, rows, source, from, end);
    assert(f.strings.take(f.strings.len() as int) =~= f.strings);
    assert(f.constants.take(f.constants.len() as int) =~= f.constants);
    assert(f.api_calls.take(f.api_calls.len() as int) =~= f.api_calls);
    if from < end {
        if rows[from].kind == "comment"@ {
            let next = pretty::behind(rows, from);
            lemma_behind(rows, from, from + 1);
            if next <= end {
                lemma_nodes(f, rows, source, next, end, n);
                assert(is_no_comment(rows, from, n) && from <= n ==> next <= n);
                assert(is_no_comment(rows, from, n) ==> is_no_comment(rows, next, n));
            } else if from <= n < end && is_no_comment(rows, from, n) {
                assert(pretty::behind(rows, from) <= n);
            }
        } else {
            let first = with_node(f, rows, source, from);
            lemma_node(f, rows, source, from);
            lemma_nodes(first, rows, source, from + 1, end, n);
            lemma_has_all_adds_up(g, first, f);
            if n == from {
                lemma_more_holds_too(g, first, rows, source, n);
            } else {
                assert(is_no_comment(rows, from, n) ==> is_no_comment(rows, from + 1, n));
            }
        }
    }
}

/// The fingerprint of a node holds what it and every node below it shows, but
/// for what stands in comments.
pub proof fn law_fingerprints_hold_every_literal(
    rows: Seq<RowModel>,
    source: Seq<char>,
    i: int,
    n: int,
)
    requires
        0 <= i < rows.len(),
        i == n || (i < n < pretty::behind(rows, i) && is_no_comment(rows, i + 1, n)),
    ensures
        holds_node(fingerprint::fingerprint_of(rows, source, i), rows, source, n),
{
    let own = with_node(fingerprint::no_fingerprint(), rows, source, i);
    let end = pretty::behind(rows, i);
    lemma_behind(rows, i, i + 1);
    lemma_node(fingerprint::no_fingerprint(), rows, source, i);
    lemma_nodes(own, rows, source, i + 1, end, n);
    if n == i {
        lemma_more_holds_too(
            fingerprint::fingerprint_of(rows, source, i),
            own,
            rows,
            source,
            n,
        );
    }
}

proof fn lemma_digits_value(t: Seq<char>, c: char, end: int)
    requires
        0 <= end <= t.len(),
    ensures
        fingerprint::digits_value(t.push(c), 0, end) == fingerprint::digits_value(t, 0, end),
    decreases end,
{
    if end > 0 {
        lemma_digits_value(t, c, end - 1);
    }
}

proof fn lemma_decimal_value(value: nat)
    ensures
        fingerprint::digits_value(
            text::decimal_of(value),
            0,
            text::decimal_of(value).len() as int,
        ) == value,
    decreases value,
{
    text::law_decimal_digits_read_back(value);
    let digits = text::decimal_of(value);
    let last = value as int % 10;
    assert(text::hex_digit(last) as int - '0' as int == last);
    if value >= 10 {
        lemma_decimal_value(value / 10);
        let ahead = text::decimal_of(value / 10);
        lemma_digits_value(ahead, text::hex_digit(last), ahead.len() as int);
        assert(digits == ahead.push(text::hex_digit(last)));
    } else {
        assert(fingerprint::digits_value(digits, 0, 0) == 0);
        assert(digits.len() == 1);
    }
}

/// An integer counts by its value: as a duration where it is a usual one, as a
/// number where it is larger than 100, and else not at all.
pub proof fn law_numbers_count_by_their_value(value: nat)
    requires
        value <= 0x7fff_ffff_ffff_ffff,
    ensures
        ({
            let counted = fingerprint::number_constant(text::decimal_of(value));
            let is_usual = value == 100 || value == 200 || value == 500 || value == 1000 || value
                == 2000 || value == 5000;
            &&& is_usual ==> counted == Some(ConstantModel::Duration(value as u64))
            &&& !is_usual && value > 100 ==> counted == Some(ConstantModel::Number(value as i64))
            &&& value < 100 ==> counted is None
        }),
{
    let digits = text::decimal_of(value);
    text::law_decimal_digits_read_back(value);
    lemma_decimal_value(value);
    assert('0' <= digits[0] <= '9');
    assert(fingerprint::are_digits(digits, 0, digits.len() as int));
    assert(fingerprint::integer_of(digits) == Some(value as i64));
}

} // verus!
