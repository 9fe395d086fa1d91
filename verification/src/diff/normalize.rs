//! Texts made comparable: renamed identifiers, canonical identifiers, and
//! lines without what minifiers change.

use vstd::prelude::*;
use vstd::string::*;

use crate::canonicalizer::Canonicalizer;
use crate::edits::{splice, Edit};
use crate::order::{arrange, stable_order};
use crate::parser::JsParser;
use crate::scope::ScopeAnalyzer;
use crate::syntax::SyntaxTree;
use crate::text::{
    chars_of, first_ink, join_texts, last_ink, same_text, slice_chars, split_lines, string_of,
    trim_chars,
};

use crate::edits::EditModel;
use crate::syntax::RowModel;
use crate::{canonicalizer, chars, edits, order, parser, scope, syntax, text};

verus! {

/// The last name that a list gives for a name.
pub open spec fn listed_upto(list: Seq<(String, String)>, name: Seq<char>, count: int) -> Option<
    Seq<char>,
>
    decreases count,
{
    if count <= 0 {
        None
    } else if list[count - 1].0@ == name {
        Some(list[count - 1].1@)
    } else {
        listed_upto(list, name, count - 1)
    }
}

/// The edits of listed identifiers among the first `count` nodes.
pub open spec fn rename_edits(
    rows: Seq<RowModel>,
    source: Seq<char>,
    list: Seq<(String, String)>,
    count: int,
) -> Seq<EditModel>
    decreases count,
{
    if count <= 0 {
        Seq::empty()
    } else {
        let before = rename_edits(rows, source, list, count - 1);
        let row = rows[count - 1];
        match listed_upto(list, syntax::text_of(rows, source, count - 1), list.len() as int) {
            Some(name) => if row.kind == "identifier"@ {
                before.push(EditModel { start: row.start_byte, end: row.end_byte, text: name })
            } else {
                before
            },
            None => before,
        }
    }
}

/// Where edits start.
pub open spec fn start_keys(list: Seq<EditModel>) -> Seq<u64> {
    list.map_values(|edit: EditModel| edit.start as u64)
}

/// Edits in the order in which they start.
pub open spec fn by_start(list: Seq<EditModel>) -> Seq<EditModel> {
    order::arranged(list, start_keys(list))
}

/// The edits among the first `count` that start behind the kept ones.
pub open spec fn kept_upto(list: Seq<EditModel>, count: int) -> Seq<EditModel>
    decreases count,
{
    if count <= 0 {
        Seq::empty()
    } else {
        let before = kept_upto(list, count - 1);
        if list[count - 1].start < edits::resume_at(before, before.len() as int) {
            before
        } else {
            before.push(list[count - 1])
        }
    }
}

/// A text with its identifiers renamed as listed.
pub open spec fn renamed_in(
    rows: Seq<RowModel>,
    source: Seq<char>,
    list: Seq<(String, String)>,
) -> Seq<char> {
    let sorted = by_start(rename_edits(rows, source, list, rows.len() as int));
    edits::spliced(source, kept_upto(sorted, sorted.len() as int))
}

/// The nodes of a text that need not be without errors.
pub open spec fn tolerant(source: Seq<char>) -> Option<Seq<RowModel>> {
    match parser::javascript_rows(source) {
        Some(rows) => if syntax::covers(rows, source) {
            Some(rows)
        } else {
            None
        },
        None => None,
    }
}

/// A text with its identifiers renamed as listed, where it parses.
pub open spec fn renamed(source: Seq<char>, list: Seq<(String, String)>) -> Seq<char> {
    if list.len() == 0 {
        source
    } else {
        match tolerant(source) {
            Some(rows) => renamed_in(rows, source, list),
            None => source,
        }
    }
}

/// A text with canonical names, where they can be given.
pub open spec fn canonical_in(rows: Seq<RowModel>, source: Seq<char>) -> Seq<char> {
    let model = scope::analyzed(seq![scope::global_scope()], rows, source);
    let (names, fault) = canonicalizer::canonical_names(model.scopes, rows, source);
    let changes = canonicalizer::identifier_edits(
        rows,
        source,
        names.names,
        Seq::empty(),
        scope::resolved_from(rows, source, model, 0),
    );
    if fault is Some || edits::some_overlap(changes) {
        source
    } else {
        edits::spliced(source, changes)
    }
}

/// A text with canonical names, where it parses.
pub open spec fn canonical(source: Seq<char>) -> Seq<char> {
    match tolerant(source) {
        Some(rows) => canonical_in(rows, source),
        None => source,
    }
}

fn listed<'a>(list: &'a Vec<(String, String)>, name: &str) -> (r: Option<&'a str>)
    ensures
        match (r, listed_upto(list@, name@, list@.len() as int)) {
            (Some(found), Some(wanted)) => found@ == wanted,
            (None, None) => true,
            _ => false,
        },
{
    let mut i: usize = list.len();
    while i > 0
        invariant
            i <= list@.len(),
            listed_upto(list@, name@, list@.len() as int) == listed_upto(list@, name@, i as int),
        decreases i,
    {
        i -= 1;
        if same_text(list[i].0.as_str(), name) {
            return Some(list[i].1.as_str());
        }
    }
    None
}

fn collect_identifier_replacements(
    tree: &SyntaxTree,
    source: &str,
    list: &Vec<(String, String)>,
) -> (replacements: Vec<Edit>)
    requires
        syntax::covers(tree@, source@),
    ensures
        edits::edit_views(replacements@) == rename_edits(
            tree@,
            source@,
            list@,
            tree@.len() as int,
        ),
        edits::are_ranges(source@, edits::edit_views(replacements@)),
{
    let mut replacements: Vec<Edit> = Vec::new();
    let count = tree.len();
    let mut i: usize = 0;
    assert(edits::edit_views(replacements@) =~= Seq::empty());
    while i < count
        invariant
            syntax::covers(tree@, source@),
            count == tree@.len(),
            i <= count,
            edits::edit_views(replacements@) == rename_edits(tree@, source@, list@, i as int),
            edits::are_ranges(source@, edits::edit_views(replacements@)),
        decreases count - i,
    {
        let row = tree.row(i);
        let ghost before = replacements@;
        match listed(list, tree.text(i, source)) {
            Some(name) => {
                if same_text(row.kind, "identifier") {
                    assert(text::is_text_range(
                        source@,
                        tree@[i as int].start_byte,
                        tree@[i as int].end_byte,
                    ));
                    let edit = Edit {
                        start: row.start_byte,
                        end: row.end_byte,
                        text: name.to_string(),
                    };
                    replacements.push(edit);
                    assert(edits::edit_views(replacements@) =~= edits::edit_views(before).push(
                        edit@,
                    ));
                }
            },
            None => {},
        }
        i += 1;
    }
    replacements
}

fn sort_by_start(list: Vec<Edit>) -> (sorted: Vec<Edit>)
    ensures
        edits::edit_views(sorted@) == by_start(edits::edit_views(list@)),
        forall|source: Seq<char>|
            edits::are_ranges(source, edits::edit_views(list@)) ==> #[trigger] edits::are_ranges(
                source,
                edits::edit_views(sorted@),
            ),
{
    let ghost models = edits::edit_views(list@);
    let mut keys: Vec<u64> = Vec::new();
    let mut i: usize = 0;
    while i < list.len()
        invariant
            i <= list@.len(),
            keys@.len() == i,
            forall|k: int| 0 <= k < i ==> #[trigger] keys@[k] == list@[k].start as u64,
        decreases list@.len() - i,
    {
        keys.push(list[i].start as u64);
        i += 1;
    }
    let order = stable_order(&keys);
    let length: usize = list.len();
    proof {
        assert(keys@ =~= start_keys(models));
        order::lemma_ranks(keys@, order@);
        order::lemma_order_has_no_duplicates(keys@, order@);
    }
    let sorted = arrange(list, &order);
    proof {
        assert(edits::edit_views(sorted@) =~= by_start(models));
        assert forall|source: Seq<char>| edits::are_ranges(source, models) implies
            #[trigger] edits::are_ranges(source, edits::edit_views(sorted@)) by {
            assert forall|i: int| 0 <= i < sorted@.len() implies text::is_text_range(
                source,
                (#[trigger] edits::edit_views(sorted@)[i]).start,
                edits::edit_views(sorted@)[i].end,
            ) by {
                assert(sorted@[i] == list@[order@[i] as int]);
                assert(models[order@[i] as int] == list@[order@[i] as int]@);
            }
        }
    }
    sorted
}

fn keep_edits(sorted: Vec<Edit>, source: &str) -> (kept: Vec<Edit>)
    requires
        edits::are_ranges(source@, edits::edit_views(sorted@)),
    ensures
        edits::edit_views(kept@) == kept_upto(
            edits::edit_views(sorted@),
            sorted@.len() as int,
        ),
        edits::are_ranges(source@, edits::edit_views(kept@)),
        !edits::some_overlap(edits::edit_views(kept@)),
{
    let ghost models = edits::edit_views(sorted@);
    let mut kept: Vec<Edit> = Vec::new();
    let mut cursor: usize = 0;
    let mut i: usize = 0;
    assert(edits::edit_views(kept@) =~= Seq::empty());
    while i < sorted.len()
        invariant
            models == edits::edit_views(sorted@),
            edits::are_ranges(source@, models),
            models.len() == sorted@.len(),
            i <= sorted@.len(),
            edits::edit_views(kept@) == kept_upto(models, i as int),
            cursor == edits::resume_at(
                edits::edit_views(kept@),
                edits::edit_views(kept@).len() as int,
            ),
            edits::are_ranges(source@, edits::edit_views(kept@)),
            !edits::some_overlap(edits::edit_views(kept@)),
        decreases sorted@.len() - i,
    {
        let edit = &sorted[i];
        assert(models[i as int] == edit@);
        if edit.start >= cursor {
            let ghost before = edits::edit_views(kept@);
            let copy = Edit { start: edit.start, end: edit.end, text: edit.text.clone() };
            assert(copy@ == models[i as int]);
            kept.push(copy);
            proof {
                let after = edits::edit_views(kept@);
                assert(after =~= before.push(models[i as int]));
                assert forall|k: int| 0 <= k < after.len() implies !#[trigger] edits::overlaps(
                    after,
                    k,
                ) by {
                    if k < before.len() {
                        assert(!edits::overlaps(before, k));
                        assert(edits::resume_at(after, k) == edits::resume_at(before, k));
                    } else {
                        assert(edits::resume_at(after, k) == edits::resume_at(
                            before,
                            before.len() as int,
                        ));
                    }
                }
            }
            cursor = edit.end;
        }
        i += 1;
    }
    kept
}

/// Renames the listed identifiers of a text, given its tree.
pub(crate) fn rename_identifiers(tree: &SyntaxTree, source: &str, list: &Vec<(String, String)>) -> (r:
    String)
    requires
        syntax::covers(tree@, source@),
    ensures
        r@ == renamed_in(tree@, source@, list@),
{
    let replacements = collect_identifier_replacements(tree, source, list);
    let sorted = sort_by_start(replacements);
    let ghost models = edits::edit_views(sorted@);
    assert(models.len() == sorted@.len());
    let kept = keep_edits(sorted, source);
    match splice(source, &kept) {
        Some(output) => output,
        None => {
            assert(false);
            String::new()
        },
    }
}

/// Renames the listed identifiers of a text, and touches no string, comment,
/// keyword or property name. A text that cannot be parsed stays as it is.
pub fn normalize_string_with_renames(s: &str, rename_map: &Vec<(String, String)>) -> (r: String)
    ensures
        r@ == renamed(s@, rename_map@),
{
    if rename_map.len() == 0 {
        return s.to_string();
    }
    let mut parser = match JsParser::new() {
        Ok(parser) => parser,
        Err(_) => {
            return s.to_string();
        },
    };
    match parser.parse_tolerant(s) {
        Some(tree) => rename_identifiers(&tree, s, rename_map),
        None => s.to_string(),
    }
}

/// Gives the variables of a text canonical names, given its tree.
pub(crate) fn canonical_form(tree: &SyntaxTree, source: &str) -> (r: String)
    requires
        syntax::covers(tree@, source@),
    ensures
        r@ == canonical_in(tree@, source@),
{
    let mut analyzer = ScopeAnalyzer::new();
    analyzer.analyze(tree, source);
    let mut canonicalizer = Canonicalizer::new(analyzer);
    match canonicalizer.canonicalize(tree, source) {
        Ok(()) => {},
        Err(_) => {
            return source.to_string();
        },
    }
    match canonicalizer.apply_canonicalization(tree, source) {
        Ok(output) => output,
        Err(_) => source.to_string(),
    }
}

/// Gives declared bindings and the references that they resolve canonical
/// names. Literals, strings, comments, property names and unresolved names
/// stay.
pub fn normalize_minified_identifiers(s: &str) -> (r: String)
    ensures
        r@ == canonical(s@),
{
    let list: Vec<(String, String)> = Vec::new();
    normalize_javascript_identifiers(s, &list)
}

/// Renames the listed identifiers, then gives bindings canonical names.
pub fn normalize_javascript_identifiers(source: &str, rename_map: &Vec<(String, String)>) -> (r:
    String)
    ensures
        r@ == canonical(renamed(source@, rename_map@)),
{
    let text = normalize_string_with_renames(source, rename_map);
    let mut parser = match JsParser::new() {
        Ok(parser) => parser,
        Err(_) => {
            return text;
        },
    };
    match parser.parse_tolerant(text.as_str()) {
        Some(tree) => canonical_form(&tree, text.as_str()),
        None => text,
    }
}

/// Whether `from`, in any case, stands at a place.
pub open spec fn is_from_at(t: Seq<char>, i: int) -> bool {
    0 <= i && i + 4 <= t.len() && (t[i] == 'f' || t[i] == 'F') && (t[i + 1] == 'r' || t[i + 1]
        == 'R') && (t[i + 2] == 'o' || t[i + 2] == 'O') && (t[i + 3] == 'm' || t[i + 3] == 'M')
}

/// The last place up to `i` where `from` stands.
pub open spec fn last_from(t: Seq<char>, i: int) -> Option<int>
    decreases i + 1,
{
    if i < 0 {
        None
    } else if is_from_at(t, i) {
        Some(i)
    } else {
        last_from(t, i - 1)
    }
}

/// The quoted string that a text starts with.
pub open spec fn leading_string(t: Seq<char>) -> Option<Seq<char>> {
    if t.len() > 0 && (t[0] == '"' || t[0] == '\'') && text::find_char(t, t[0], 1) < t.len() {
        Some(t.subrange(0, text::find_char(t, t[0], 1) + 1))
    } else {
        None
    }
}

/// An import reduced to the module that it names: `import _ from "module";`.
pub open spec fn canonical_import(t: Seq<char>) -> Seq<char> {
    match last_from(t, t.len() as int) {
        Some(p) => match leading_string(text::trimmed(t.skip(p + 4))) {
            Some(module) => "import _ from "@ + module + ";"@,
            None => t,
        },
        None => t,
    }
}

fn find_last_from(t: &Vec<char>) -> (r: Option<usize>)
    ensures
        syntax::index_view(r) == last_from(t@, t@.len() as int),
        r matches Some(p) ==> p + 4 <= t@.len(),
{
    let mut i: usize = t.len();
    assert(!is_from_at(t@, t@.len() as int));
    while i > 0
        invariant
            i <= t@.len(),
            last_from(t@, t@.len() as int) == last_from(t@, i - 1),
        decreases i,
    {
        i -= 1;
        if t.len() - i >= 4 && (t[i] == 'f' || t[i] == 'F') && (t[i + 1] == 'r' || t[i + 1]
            == 'R') && (t[i + 2] == 'o' || t[i + 2] == 'O') && (t[i + 3] == 'm' || t[i + 3]
            == 'M') {
            return Some(i);
        }
    }
    None
}

fn canonicalize_import(s: &str) -> (r: String)
    ensures
        r@ == canonical_import(s@),
{
    let t = chars_of(s);
    match find_last_from(&t) {
        None => s.to_string(),
        Some(p) => {
            let total: usize = t.len();
            let after = slice_chars(&t, p + 4, total);
            assert(after@ =~= s@.skip(p + 4));
            let rest = trim_chars(&after);
            if rest.len() == 0 || (rest[0] != '"' && rest[0] != '\'') {
                return s.to_string();
            }
            let end = crate::text::position_of_char(&rest, rest[0], 1);
            if end >= rest.len() {
                return s.to_string();
            }
            let module = string_of(&slice_chars(&rest, 0, end + 1));
            "import _ from ".to_string().concat(module.as_str()).concat(";")
        },
    }
}

/// Whether a word stands at a place.
pub open spec fn has_at(t: Seq<char>, word: Seq<char>, i: int) -> bool {
    0 <= i && i + word.len() <= t.len() && t.subrange(i, i + word.len()) == word
}

/// The length of the declaration keyword at a place, with its space.
pub open spec fn keyword_length(t: Seq<char>, i: int) -> int {
    if has_at(t, "var "@, i) || has_at(t, "let "@, i) {
        4
    } else if has_at(t, "const "@, i) {
        6
    } else {
        0
    }
}

/// A line without the declaration keyword at its start.
pub open spec fn without_keyword(t: Seq<char>) -> Seq<char> {
    let start = text::skip_space(t, 0);
    t.take(start) + t.skip(start + keyword_length(t, start))
}

/// A line without the comma or semicolon at its end.
pub open spec fn without_mark(t: Seq<char>) -> Seq<char> {
    let end = text::space_start(t, t.len() as int);
    if end > 0 && (t[end - 1] == ',' || t[end - 1] == ';') {
        t.take(end - 1) + t.skip(end)
    } else {
        t
    }
}

/// A text whose runs of white space are single spaces.
pub open spec fn collapsed_upto(t: Seq<char>, count: int) -> Seq<char>
    decreases count,
{
    if count <= 0 {
        Seq::empty()
    } else if !chars::is_space(t[count - 1]) {
        collapsed_upto(t, count - 1).push(t[count - 1])
    } else if count >= 2 && chars::is_space(t[count - 2]) {
        collapsed_upto(t, count - 1)
    } else {
        collapsed_upto(t, count - 1).push(' ')
    }
}

/// A text whose runs of white space are single spaces.
pub open spec fn collapsed(t: Seq<char>) -> Seq<char> {
    collapsed_upto(t, t.len() as int)
}

/// A line made comparable.
pub open spec fn comparable_line(t: Seq<char>) -> Seq<char> {
    collapsed(text::trimmed(without_mark(without_keyword(t))))
}

/// Lines made comparable.
pub open spec fn comparable_lines(lines: Seq<Seq<char>>) -> Seq<Seq<char>> {
    lines.map_values(|line: Seq<char>| comparable_line(line))
}

/// A text made comparable.
pub open spec fn comparable(t: Seq<char>, is_import: bool) -> Seq<char> {
    if is_import {
        canonical_import(t)
    } else {
        text::joined(comparable_lines(text::lines_of(t)), "\n"@)
    }
}

pub(crate) fn word_at(t: &Vec<char>, word: &str, i: usize) -> (r: bool)
    requires
        i <= t@.len(),
    ensures
        r == has_at(t@, word@, i as int),
{
    let w = chars_of(word);
    let total: usize = t.len();
    if total - i < w.len() {
        return false;
    }
    let mut k: usize = 0;
    while k < w.len()
        invariant
            w@ == word@,
            total == t@.len(),
            i + w@.len() <= total,
            k <= w@.len(),
            forall|j: int| 0 <= j < k ==> #[trigger] w@[j] == t@[i + j],
        decreases w@.len() - k,
    {
        if t[i + k] != w[k] {
            assert(t@.subrange(i as int, i + word@.len())[k as int] != word@[k as int]);
            return false;
        }
        k += 1;
    }
    assert(t@.subrange(i as int, i + word@.len()) =~= word@);
    true
}

fn append(a: Vec<char>, b: &Vec<char>) -> (r: Vec<char>)
    ensures
        r@ == a@ + b@,
{
    let mut r = a;
    let ghost before = r@;
    let mut i: usize = 0;
    while i < b.len()
        invariant
            i <= b@.len(),
            r@ == before + b@.take(i as int),
        decreases b@.len() - i,
    {
        r.push(b[i]);
        i += 1;
        assert(r@ =~= before + b@.take(i as int));
    }
    assert(b@.take(i as int) =~= b@);
    r
}

fn strip_declaration_keyword(t: &Vec<char>) -> (r: Vec<char>)
    ensures
        r@ == without_keyword(t@),
{
    let start = first_ink(t);
    let length: usize = if word_at(t, "var ", start) || word_at(t, "let ", start) {
        proof {
            reveal_strlit("var ");
            reveal_strlit("let ");
        }
        4
    } else if word_at(t, "const ", start) {
        proof {
            reveal_strlit("const ");
        }
        6
    } else {
        0
    };
    let total: usize = t.len();
    let front = slice_chars(t, 0, start);
    let back = slice_chars(t, start + length, total);
    let r = append(front, &back);
    assert(r@ =~= without_keyword(t@));
    r
}

fn strip_trailing_mark(t: &Vec<char>) -> (r: Vec<char>)
    ensures
        r@ == without_mark(t@),
{
    let end = last_ink(t);
    let stop: usize = if end > 0 && (t[end - 1] == ',' || t[end - 1] == ';') {
        end - 1
    } else {
        end
    };
    let front = slice_chars(t, 0, stop);
    let back = slice_chars(t, end, t.len());
    let r = append(front, &back);
    assert(r@ =~= without_mark(t@));
    r
}

fn collapse_whitespace(t: &Vec<char>) -> (r: Vec<char>)
    ensures
        r@ == collapsed(t@),
{
    let mut r: Vec<char> = Vec::new();
    let mut previous = false;
    let mut i: usize = 0;
    while i < t.len()
        invariant
            i <= t@.len(),
            r@ == collapsed_upto(t@, i as int),
            previous == (i > 0 && chars::is_space(t@[i - 1])),
        decreases t@.len() - i,
    {
        let c = t[i];
        if c.is_whitespace() {
            if !previous {
                r.push(' ');
            }
            previous = true;
        } else {
            r.push(c);
            previous = false;
        }
        i += 1;
    }
    r
}

/// Makes a text comparable behind its identifiers: an import is reduced to its
/// module; a line loses a declaration keyword at its start, a comma or
/// semicolon at its end, and white space but for single spaces inside.
pub fn normalize_for_comparison(s: &str, is_import: bool) -> (r: String)
    ensures
        r@ == comparable(s@, is_import),
{
    if is_import {
        return canonicalize_import(s);
    }
    let lines = split_lines(s);
    let ghost all = text::views(lines@);
    let mut output: Vec<String> = Vec::new();
    let mut i: usize = 0;
    while i < lines.len()
        invariant
            all == text::views(lines@),
            i <= lines@.len(),
            output@.len() == i,
            forall|k: int| 0 <= k < i ==> (#[trigger] output@[k])@ == comparable_line(all[k]),
        decreases lines@.len() - i,
    {
        assert(all[i as int] == lines@[i as int]@);
        let line = chars_of(lines[i].as_str());
        let bare = strip_trailing_mark(&strip_declaration_keyword(&line));
        output.push(string_of(&collapse_whitespace(&trim_chars(&bare))));
        i += 1;
    }
    assert(text::views(output@) =~= comparable_lines(all));
    join_texts(&output, "\n")
}

/// The place two behind another, at most the end.
pub open spec fn two_behind(t: Seq<char>, i: int) -> int {
    if i + 2 <= t.len() {
        i + 2
    } else {
        t.len() as int
    }
}

/// A line from a place on, without what its strings hold.
pub open spec fn skeleton_from(t: Seq<char>, i: int) -> Seq<char>
    decreases t.len() - i, 0nat,
{
    if i < 0 || i >= t.len() {
        Seq::empty()
    } else if t[i] == '"' || t[i] == '\'' {
        seq![t[i]] + in_quotes(t, t[i], i + 1)
    } else if t[i] == '`' {
        seq!['`'] + in_template(t, i + 1)
    } else {
        seq![t[i]] + skeleton_from(t, i + 1)
    }
}

/// What follows the content of a quoted string.
pub open spec fn in_quotes(t: Seq<char>, quote: char, i: int) -> Seq<char>
    decreases t.len() - i, 1nat,
{
    if i < 0 || i >= t.len() {
        Seq::empty()
    } else if t[i] == '\\' {
        in_quotes(t, quote, two_behind(t, i))
    } else if t[i] == quote {
        seq![quote] + skeleton_from(t, i + 1)
    } else {
        in_quotes(t, quote, i + 1)
    }
}

/// The substitutions of a template, and what follows it.
pub open spec fn in_template(t: Seq<char>, i: int) -> Seq<char>
    decreases t.len() - i, 1nat,
{
    if i < 0 || i >= t.len() {
        Seq::empty()
    } else if t[i] == '\\' {
        in_template(t, two_behind(t, i))
    } else if t[i] == '$' && i + 1 < t.len() && t[i + 1] == '{' {
        seq!['$', '{'] + in_substitution(t, i + 2, 1)
    } else if t[i] == '`' {
        seq!['`'] + skeleton_from(t, i + 1)
    } else {
        in_template(t, i + 1)
    }
}

/// A substitution at a depth of braces, and what follows it.
pub open spec fn in_substitution(t: Seq<char>, i: int, depth: nat) -> Seq<char>
    decreases t.len() - i, 2nat,
{
    if i < 0 || i >= t.len() {
        Seq::empty()
    } else if t[i] == '{' {
        seq!['{'] + in_substitution(t, i + 1, depth + 1)
    } else if t[i] == '}' {
        seq!['}'] + if depth <= 1 {
            in_template(t, i + 1)
        } else {
            in_substitution(t, i + 1, (depth - 1) as nat)
        }
    } else {
        seq![t[i]] + in_substitution(t, i + 1, depth)
    }
}

/// A line without what its strings hold: quotes stay, and so do the
/// substitutions of templates.
pub open spec fn skeleton(t: Seq<char>) -> Seq<char> {
    skeleton_from(t, 0)
}

/// Where a line is read.
enum Place {
    Code,
    Quotes(char),
    Template,
    Substitution(usize),
}

/// What follows at a place.
spec fn rest_at(t: Seq<char>, place: Place, i: int) -> Seq<char> {
    match place {
        Place::Code => skeleton_from(t, i),
        Place::Quotes(quote) => in_quotes(t, quote, i),
        Place::Template => in_template(t, i),
        Place::Substitution(depth) => in_substitution(t, i, depth as nat),
    }
}

fn strip_string_literals(s: &str) -> (r: Vec<char>)
    ensures
        r@ == skeleton(s@),
{
    let t = chars_of(s);
    let mut r: Vec<char> = Vec::new();
    let mut place = Place::Code;
    let mut i: usize = 0;
    assert(r@ + skeleton_from(t@, 0) =~= skeleton(s@));
    while i < t.len()
        invariant
            t@ == s@,
            i <= t@.len(),
            place matches Place::Substitution(depth) ==> 1 <= depth <= i,
            skeleton(s@) == r@ + rest_at(t@, place, i as int),
        decreases t@.len() - i,
    {
        let c = t[i];
        let ghost before = r@;
        let ghost rest = rest_at(t@, place, i as int);
        let ghost at = i as int;
        match place {
            Place::Code => {
                r.push(c);
                i += 1;
                if c == '"' || c == '\'' {
                    place = Place::Quotes(c);
                } else if c == '`' {
                    place = Place::Template;
                }
                assert(rest =~= seq![c] + rest_at(t@, place, i as int));
                assert(before + rest =~= r@ + rest_at(t@, place, i as int));
            },
            Place::Quotes(quote) => {
                if c == '\\' {
                    i = if t.len() - i >= 2 {
                        i + 2
                    } else {
                        t.len()
                    };
                } else {
                    i += 1;
                    if c == quote {
                        r.push(c);
                        place = Place::Code;
                        assert(before + rest =~= r@ + rest_at(t@, place, i as int));
                    }
                }
            },
            Place::Template => {
                if c == '\\' {
                    i = if t.len() - i >= 2 {
                        i + 2
                    } else {
                        t.len()
                    };
                } else if c == '$' && i + 1 < t.len() && t[i + 1] == '{' {
                    r.push('$');
                    r.push('{');
                    i += 2;
                    place = Place::Substitution(1);
                    assert(before + rest =~= r@ + rest_at(t@, place, i as int));
                } else {
                    i += 1;
                    if c == '`' {
                        r.push(c);
                        place = Place::Code;
                        assert(before + rest =~= r@ + rest_at(t@, place, i as int));
                    }
                }
            },
            Place::Substitution(depth) => {
                r.push(c);
                i += 1;
                if c == '{' {
                    place = Place::Substitution(depth + 1);
                } else if c == '}' {
                    if depth <= 1 {
                        place = Place::Template;
                    } else {
                        place = Place::Substitution(depth - 1);
                    }
                }
                assert(before + rest =~= r@ + rest_at(t@, place, i as int));
            },
        }
    }
    assert(rest_at(t@, place, i as int) =~= Seq::empty());
    assert(r@ =~= skeleton(s@));
    r
}

/// Whether two blocks of lines differ only in what strings hold.
pub open spec fn are_string_only(removed: Seq<Seq<char>>, added: Seq<Seq<char>>) -> bool {
    removed.len() == added.len() && forall|i: int|
        0 <= i < removed.len() ==> skeleton(#[trigger] removed[i]) == skeleton(added[i])
}

/// Whether the lines from `i` on, behind open blocks of removed and added
/// lines, differ only in what strings hold.
pub open spec fn string_only_from(
    lines: Seq<Seq<char>>,
    i: int,
    removed: Seq<Seq<char>>,
    added: Seq<Seq<char>>,
) -> bool
    decreases lines.len() - i,
{
    if i < 0 || i >= lines.len() {
        are_string_only(removed, added)
    } else {
        let line = lines[i];
        if line.len() > 0 && line[0] == '-' {
            if has_at(line, "--"@, 1) {
                string_only_from(lines, i + 1, removed, added)
            } else {
                string_only_from(lines, i + 1, removed.push(line.skip(1)), added)
            }
        } else if line.len() > 0 && line[0] == '+' {
            if has_at(line, "++"@, 1) {
                string_only_from(lines, i + 1, removed, added)
            } else {
                string_only_from(lines, i + 1, removed, added.push(line.skip(1)))
            }
        } else {
            are_string_only(removed, added) && string_only_from(
                lines,
                i + 1,
                Seq::empty(),
                Seq::empty(),
            )
        }
    }
}

/// How a matched pair of declarations differs.
#[derive(Debug, Clone, Copy, PartialEq, Eq, Structural)]
pub enum DiffClassification {
    /// A pure rename, or no difference.
    Unchanged,
    /// Only what strings hold differs.
    StringOnly,
    /// The code differs.
    StructuralChange,
}

fn same_chars(a: &Vec<char>, b: &Vec<char>) -> (r: bool)
    ensures
        r == (a@ == b@),
{
    if a.len() != b.len() {
        return false;
    }
    let mut i: usize = 0;
    while i < a.len()
        invariant
            a@.len() == b@.len(),
            i <= a@.len(),
            forall|k: int| 0 <= k < i ==> #[trigger] a@[k] == b@[k],
        decreases a@.len() - i,
    {
        if a[i] != b[i] {
            return false;
        }
        i += 1;
    }
    assert(a@ =~= b@);
    true
}

fn blocks_are_string_only(removed: &Vec<String>, added: &Vec<String>) -> (r: bool)
    ensures
        r == are_string_only(text::views(removed@), text::views(added@)),
{
    let ghost a = text::views(removed@);
    let ghost b = text::views(added@);
    assert(a.len() == removed@.len() && b.len() == added@.len());
    if removed.len() != added.len() {
        return false;
    }
    let mut i: usize = 0;
    while i < removed.len()
        invariant
            a == text::views(removed@),
            b == text::views(added@),
            a.len() == removed@.len(),
            removed@.len() == added@.len(),
            i <= removed@.len(),
            forall|k: int| 0 <= k < i ==> skeleton(#[trigger] a[k]) == skeleton(b[k]),
        decreases removed@.len() - i,
    {
        assert(a[i as int] == removed@[i as int]@ && b[i as int] == added@[i as int]@);
        let left = strip_string_literals(removed[i].as_str());
        let right = strip_string_literals(added[i].as_str());
        if !same_chars(&left, &right) {
            assert(skeleton(a[i as int]) != skeleton(b[i as int]));
            return false;
        }
        i += 1;
    }
    true
}

/// Tells whether a diff changes more than what strings hold: blocks of removed
/// and added lines are compared line by line.
pub fn classify_diff_lines(diff_text: &str) -> (r: DiffClassification)
    ensures
        r == (if string_only_from(
            text::lines_of(diff_text@),
            0,
            Seq::empty(),
            Seq::empty(),
        ) {
            DiffClassification::StringOnly
        } else {
            DiffClassification::StructuralChange
        }),
{
    let lines = split_lines(diff_text);
    let ghost all = text::views(lines@);
    let mut removed: Vec<String> = Vec::new();
    let mut added: Vec<String> = Vec::new();
    let mut i: usize = 0;
    assert(text::views(removed@) =~= Seq::empty());
    assert(text::views(added@) =~= Seq::empty());
    assert(all.len() == lines@.len());
    while i < lines.len()
        invariant
            all == text::views(lines@),
            all == text::lines_of(diff_text@),
            all.len() == lines@.len(),
            i <= lines@.len(),
            string_only_from(all, 0, Seq::empty(), Seq::empty()) == string_only_from(
                all,
                i as int,
                text::views(removed@),
                text::views(added@),
            ),
        decreases lines@.len() - i,
    {
        assert(all[i as int] == lines@[i as int]@);
        let line = chars_of(lines[i].as_str());
        let ghost before = removed@;
        let ghost earlier = added@;
        if line.len() > 0 && line[0] == '-' {
            if !word_at(&line, "--", 1) {
                let rest = string_of(&slice_chars(&line, 1, line.len()));
                assert(rest@ =~= all[i as int].skip(1));
                removed.push(rest);
                assert(text::views(removed@) =~= text::views(before).push(rest@));
            }
        } else if line.len() > 0 && line[0] == '+' {
            if !word_at(&line, "++", 1) {
                let rest = string_of(&slice_chars(&line, 1, line.len()));
                assert(rest@ =~= all[i as int].skip(1));
                added.push(rest);
                assert(text::views(added@) =~= text::views(earlier).push(rest@));
            }
        } else {
            if !blocks_are_string_only(&removed, &added) {
                return DiffClassification::StructuralChange;
            }
            removed = Vec::new();
            added = Vec::new();
            assert(text::views(removed@) =~= Seq::empty());
            assert(text::views(added@) =~= Seq::empty());
        }
        i += 1;
    }
    if blocks_are_string_only(&removed, &added) {
        DiffClassification::StringOnly
    } else {
        DiffClassification::StructuralChange
    }
}

} // verus!
