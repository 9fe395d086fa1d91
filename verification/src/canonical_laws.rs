//! What canonical names do to a text.

use vstd::prelude::*;

use crate::canonicalizer::{CanonicalError, NamesModel};
use crate::scope::{ScopeModel, ScopeType, ScopesModel, VariableKind, VariableModel};
use crate::syntax::RowModel;

use crate::canonicalizer::{
    applies, canonical_names, chosen_upto, declares, identifier_edits, spellings,
};
use crate::scope::laws::{declares_name, scopes_of};
use crate::scope::reference_laws;
use crate::{canonicalizer, edits, order, scope, syntax};

verus! {

/// Whether an identifier is a property key and the name of a variable at once:
/// in an object literal or in an object pattern.
pub open spec fn is_key_and_name(rows: Seq<RowModel>, i: int) -> bool {
    rows[i].kind == "shorthand_property_identifier"@ || rows[i].kind
        == "shorthand_property_identifier_pattern"@
}

/// Whether an identifier is the only word of a specifier of a kind.
pub open spec fn is_alone_in(rows: Seq<RowModel>, i: int, kind: Seq<char>) -> bool {
    syntax::parent_of(rows, i) matches Some(parent) && rows[parent].kind == kind
        && syntax::child_by_field(rows, parent, "alias"@) is None
}

/// Whether a text is what stands for an identifier under a new name, with what
/// other code reads kept: the key of a property, what a module exports, and
/// what is imported from another one.
pub open spec fn stands_for(
    rows: Seq<RowModel>,
    i: int,
    original: Seq<char>,
    renamed: Seq<char>,
    text: Seq<char>,
) -> bool {
    let n = original.len() as int;
    let m = renamed.len() as int;
    &&& original == renamed ==> text == original
    &&& original != renamed && is_key_and_name(rows, i) ==> {
        &&& text.len() == n + 2 + m
        &&& text.subrange(0, n) == original
        &&& text[n] == ':'
        &&& text[n + 1] == ' '
        &&& text.subrange(n + 2, n + 2 + m) == renamed
    }
    &&& original != renamed && !is_key_and_name(rows, i) && is_alone_in(
        rows,
        i,
        "import_specifier"@,
    ) ==> {
        &&& text.len() == n + 4 + m
        &&& text.subrange(0, n) == original
        &&& text.subrange(n, n + 4) == seq![' ', 'a', 's', ' ']
        &&& text.subrange(n + 4, n + 4 + m) == renamed
    }
    &&& original != renamed && !is_key_and_name(rows, i) && is_alone_in(
        rows,
        i,
        "export_specifier"@,
    ) ==> {
        &&& text.len() == m + 4 + n
        &&& text.subrange(0, m) == renamed
        &&& text.subrange(m, m + 4) == seq![' ', 'a', 's', ' ']
        &&& text.subrange(m + 4, m + 4 + n) == original
    }
    &&& !is_key_and_name(rows, i) && !is_alone_in(rows, i, "import_specifier"@) && !is_alone_in(
        rows,
        i,
        "export_specifier"@,
    ) ==> text == renamed
}

/// Whether a list gives a name for a canonical name: the last one that it has,
/// or the canonical name itself.
pub open spec fn is_chosen(
    list: Seq<(String, String)>,
    canonical: Seq<char>,
    name: Seq<char>,
) -> bool {
    ||| exists|j: int|
        0 <= j < list.len() && (#[trigger] list[j]).0@ == canonical && list[j].1@ == name
            && forall|l: int| j < l < list.len() ==> (#[trigger] list[l]).0@ != canonical
    ||| name == canonical && forall|l: int|
        0 <= l < list.len() ==> (#[trigger] list[l]).0@ != canonical
}

proof fn lemma_chosen(list: Seq<(String, String)>, canonical: Seq<char>, count: int)
    requires
        0 <= count <= list.len(),
    ensures
        is_chosen(list.take(count), canonical, chosen_upto(list, canonical, count)),
    decreases count,
{
    let shorter = list.take(count - 1);
    let longer = list.take(count);
    if count > 0 {
        assert(longer[count - 1] == list[count - 1]);
        if list[count - 1].0@ != canonical {
            lemma_chosen(list, canonical, count - 1);
            let name = chosen_upto(list, canonical, count - 1);
            if exists|j: int|
                0 <= j < shorter.len() && (#[trigger] shorter[j]).0@ == canonical && shorter[j].1@
                    == name && forall|l: int|
                    j < l < shorter.len() ==> (#[trigger] shorter[l]).0@ != canonical {
                let j = choose|j: int|
                    0 <= j < shorter.len() && (#[trigger] shorter[j]).0@ == canonical
                        && shorter[j].1@ == name && forall|l: int|
                        j < l < shorter.len() ==> (#[trigger] shorter[l]).0@ != canonical;
                assert(longer[j] == shorter[j]);
                assert forall|l: int| j < l < longer.len() implies (#[trigger] longer[l]).0@
                    != canonical by {
                    if l < count - 1 {
                        assert(shorter[l] == longer[l]);
                    }
                }
            } else {
                assert forall|l: int| 0 <= l < longer.len() implies (#[trigger] longer[l]).0@
                    != canonical by {
                    if l < count - 1 {
                        assert(shorter[l] == longer[l]);
                    }
                }
            }
        }
    }
}

proof fn lemma_replacement(
    rows: Seq<RowModel>,
    i: int,
    original: Seq<char>,
    renamed: Seq<char>,
)
    ensures
        stands_for(
            rows,
            i,
            original,
            renamed,
            canonicalizer::replacement_of(rows, i, original, renamed),
        ),
{
    reveal_strlit(": ");
    reveal_strlit(" as ");
    reveal_strlit("import_specifier");
    reveal_strlit("export_specifier");
    assert("import_specifier"@[0] == 'i');
    assert("export_specifier"@[0] == 'e');
    let n = original.len() as int;
    let m = renamed.len() as int;
    let text = canonicalizer::replacement_of(rows, i, original, renamed);
    if original != renamed {
        if is_key_and_name(rows, i) {
            assert(text.subrange(0, n) =~= original);
            assert(text.subrange(n + 2, n + 2 + m) =~= renamed);
        } else if is_alone_in(rows, i, "import_specifier"@) {
            assert(text.subrange(0, n) =~= original);
            assert(text.subrange(n, n + 4) =~= seq![' ', 'a', 's', ' ']);
            assert(text.subrange(n + 4, n + 4 + m) =~= renamed);
        } else if is_alone_in(rows, i, "export_specifier"@) {
            assert(text.subrange(0, m) =~= renamed);
            assert(text.subrange(m, m + 4) =~= seq![' ', 'a', 's', ' ']);
            assert(text.subrange(m + 4, m + 4 + n) =~= original);
        }
    }
}

/// Whether edits put, in place of each identifier that resolves, what stands
/// for it under the name that was given or chosen for its variable.
pub open spec fn renames(
    changes: Seq<edits::EditModel>,
    rows: Seq<RowModel>,
    source: Seq<char>,
    model: ScopesModel,
    names: Map<(int, Seq<char>), Seq<char>>,
    list: Seq<(String, String)>,
) -> bool {
    let resolved = scope::resolved_from(rows, source, model, 0);
    &&& changes.len() == resolved.len()
    &&& forall|k: int|
        0 <= k < changes.len() ==> {
            let i = resolved[k].node;
            let original = syntax::text_of(rows, source, i);
            let key = (resolved[k].scope_id, original);
            &&& (#[trigger] changes[k]).start == rows[i].start_byte
            &&& changes[k].end == rows[i].end_byte
            &&& !names.contains_key(key) ==> changes[k].text == original
            &&& names.contains_key(key) ==> exists|renamed: Seq<char>| #[trigger]
                is_chosen(list, names[key], renamed) && stands_for(
                    rows,
                    i,
                    original,
                    renamed,
                    changes[k].text,
                )
        }
}

/// Renaming a text changes the identifiers that resolve and nothing else, and
/// keeps every property key, every exported name and every imported one: where
/// an identifier is both a key and a name, the text that stands for it begins
/// with the key and a colon.
pub proof fn law_renaming_keeps_keys(
    r: Result<String, CanonicalError>,
    rows: Seq<RowModel>,
    source: Seq<char>,
    model: ScopesModel,
    names: Map<(int, Seq<char>), Seq<char>>,
    list: Seq<(String, String)>,
)
    requires
        applies(r, rows, source, model, names, list),
    ensures
        r matches Ok(output) ==> exists|changes: Seq<edits::EditModel>, places: Seq<int>|
            renames(changes, rows, source, model, names, list) && #[trigger] edits::is_laid_out(
                source,
                changes,
                output@,
                places,
            ),
{
    let resolved = scope::resolved_from(rows, source, model, 0);
    let changes = identifier_edits(rows, source, names, list, resolved);
    assert forall|k: int| 0 <= k < changes.len() implies {
        let i = resolved[k].node;
        let original = syntax::text_of(rows, source, i);
        let key = (resolved[k].scope_id, original);
        &&& (#[trigger] changes[k]).start == rows[i].start_byte
        &&& changes[k].end == rows[i].end_byte
        &&& !names.contains_key(key) ==> changes[k].text == original
        &&& names.contains_key(key) ==> exists|renamed: Seq<char>| #[trigger]
            is_chosen(list, names[key], renamed) && stands_for(
                rows,
                i,
                original,
                renamed,
                changes[k].text,
            )
    } by {
        let i = resolved[k].node;
        let original = syntax::text_of(rows, source, i);
        let key = (resolved[k].scope_id, original);
        if names.contains_key(key) {
            let renamed = chosen_upto(list, names[key], list.len() as int);
            lemma_chosen(list, names[key], list.len() as int);
            assert(list.take(list.len() as int) =~= list);
            lemma_replacement(rows, i, original, renamed);
            assert(is_chosen(list, names[key], renamed));
        }
    }
    if let Ok(output) = r {
        edits::law_edits_stand_in_place(source, changes);
        let places = choose|places: Seq<int>|
            edits::is_laid_out(source, changes, edits::spliced(source, changes), places);
        assert(edits::is_laid_out(source, changes, output@, places));
    }
}

proof fn lemma_is_spelled(rows: Seq<RowModel>, source: Seq<char>, i: int, count: int)
    requires
        0 <= i < count,
        canonicalizer::is_spelled(rows[i].kind),
    ensures
        spellings(rows, source, count).contains(syntax::text_of(rows, source, i)),
    decreases count,
{
    if i < count - 1 {
        lemma_is_spelled(rows, source, i, count - 1);
    }
}

/// Where the variables of a text are named without a fault, every identifier
/// that resolves gets a name that no identifier of the text is spelled as, and
/// two of them get the same one exactly where they refer to the same variable:
/// they resolve to the same scope and are spelled alike. So every property key
/// that is a name as well is followed by a colon and a new name.
pub proof fn law_same_name_means_same_variable(
    rows: Seq<RowModel>,
    source: Seq<char>,
    j: int,
    k: int,
)
    requires
        syntax::lists_a_tree(rows),
        canonical_names(scopes_of(rows, source).scopes, rows, source).1 is None,
        0 <= j < scope::resolved_from(rows, source, scopes_of(rows, source), 0).len(),
        0 <= k < scope::resolved_from(rows, source, scopes_of(rows, source), 0).len(),
    ensures
        ({
            let model = scopes_of(rows, source);
            let names = canonical_names(model.scopes, rows, source).0.names;
            let list = scope::resolved_from(rows, source, model, 0);
            let a = syntax::text_of(rows, source, list[j].node);
            let b = syntax::text_of(rows, source, list[k].node);
            let one = (list[j].scope_id, a);
            let other = (list[k].scope_id, b);
            &&& names.contains_key(one)
            &&& names[one] == names[other] <==> one == other
            &&& forall|i: int|
                0 <= i < rows.len() && (rows[i].kind == "identifier"@ || rows[i].kind
                    == "shorthand_property_identifier"@ || rows[i].kind
                    == "shorthand_property_identifier_pattern"@) ==> #[trigger] syntax::text_of(
                    rows,
                    source,
                    i,
                ) != names[one]
            &&& is_key_and_name(rows, list[j].node) ==> {
                let text = canonicalizer::identifier_edit(
                    rows,
                    source,
                    names,
                    Seq::empty(),
                    list[j],
                ).text;
                let n = a.len() as int;
                &&& text.len() == n + 2 + names[one].len()
                &&& text.subrange(0, n) == a
                &&& text[n] == ':'
                &&& text[n + 1] == ' '
                &&& text.subrange(n + 2, text.len() as int) == names[one]
            }
        }),
{
    let model = scopes_of(rows, source);
    let given = canonical_names(model.scopes, rows, source).0;
    let list = scope::resolved_from(rows, source, model, 0);
    reference_laws::law_identifiers_refer_to_the_nearest_variable(rows, source);
    crate::scope::laws::lemma_scopes_are_good(rows, source);
    canonicalizer::law_canonical_names_capture_nothing(model.scopes, rows, source);
    let a = syntax::text_of(rows, source, list[j].node);
    let b = syntax::text_of(rows, source, list[k].node);
    assert(list[j].node == list[j].node && list[k].node == list[k].node);
    assert(declares_name(model.scopes[list[j].scope_id], a));
    assert(declares_name(model.scopes[list[k].scope_id], b));
    assert(declares(model.scopes, list[j].scope_id, a));
    assert(declares(model.scopes, list[k].scope_id, b));
    canonicalizer::law_every_variable_gets_a_name(rows, source, list[j].scope_id, a);
    canonicalizer::law_every_variable_gets_a_name(rows, source, list[k].scope_id, b);
    let one = (list[j].scope_id, a);
    assert forall|i: int|
        0 <= i < rows.len() && (rows[i].kind == "identifier"@ || rows[i].kind
            == "shorthand_property_identifier"@ || rows[i].kind
            == "shorthand_property_identifier_pattern"@) implies #[trigger] syntax::text_of(
        rows,
        source,
        i,
    ) != given.names[one] by {
        lemma_is_spelled(rows, source, i, rows.len() as int);
    }
    let none: Seq<(String, String)> = Seq::empty();
    let renamed = chosen_upto(none, given.names[one], none.len() as int);
    assert(renamed == given.names[one]);
    assert(a != renamed) by {
        assert(syntax::text_of(rows, source, list[j].node) == a);
    }
    lemma_replacement(rows, list[j].node, a, renamed);
}

/// Whether a name is a word and a number.
pub open spec fn is_numbered(name: Seq<char>, word: Seq<char>) -> bool {
    exists|number: nat| 0 < number && name == word + #[trigger] crate::text::decimal_of(number)
}

/// Whether a name tells the kind of a variable: that of a parameter or class
/// is a word of its own and a number, that of a function the hash of its
/// scope, and that of any other variable `var_` and a number.
pub open spec fn tells_kind(
    scopes: Seq<ScopeModel>,
    s: int,
    v: VariableModel,
    name: Seq<char>,
) -> bool {
    match v.kind {
        VariableKind::Parameter => is_numbered(name, "param_"@),
        VariableKind::ClassDeclaration => is_numbered(name, "class_"@),
        VariableKind::FunctionDeclaration => exists|f: int|
            0 <= f < scopes.len() && (scopes[f].parent == Some(s) || f == s)
                && scopes[f].scope_type == ScopeType::Function && scopes[f].start_byte <= v.byte
                < scopes[f].end_byte && {
                let plain = "fn_"@ + #[trigger] canonicalizer::structure_hash(scopes[f]);
                name == plain || is_numbered(name, plain + "_"@)
            },
        _ => is_numbered(name, "var_"@),
    }
}

/// Whether a name tells the kind of a variable that it was given to.
pub open spec fn tells_some_kind(
    scopes: Seq<ScopeModel>,
    key: (int, Seq<char>),
    name: Seq<char>,
) -> bool {
    exists|k: int|
        0 <= k < scopes[key.0].variables.len() && (#[trigger] scopes[key.0].variables[k]).name
            == key.1 && tells_kind(scopes, key.0, scopes[key.0].variables[k], name)
}

/// Whether all names that were given tell kinds.
spec fn all_tell(scopes: Seq<ScopeModel>, n: NamesModel) -> bool {
    forall|key: (int, Seq<char>)| #[trigger]
        n.names.contains_key(key) ==> tells_some_kind(scopes, key, n.names[key])
}

proof fn lemma_number_is_positive(used: Set<Seq<char>>, prefix: Seq<char>, number: usize)
    ensures
        canonicalizer::fresh_number(used, prefix, number) matches Some(k) ==> k > number,
    decreases usize::MAX - number,
{
    if number < usize::MAX {
        lemma_number_is_positive(used, prefix, (number + 1) as usize);
    }
}

proof fn lemma_function_number(used: Set<Seq<char>>, hash: Seq<char>, number: usize)
    ensures
        canonicalizer::fresh_function(used, hash, number) matches Some(k) ==> k > number,
    decreases usize::MAX - number,
{
    if number < usize::MAX {
        lemma_function_number(used, hash, (number + 1) as usize);
    }
}

proof fn lemma_function_upto(scopes: Seq<ScopeModel>, s: int, byte: int, count: int)
    ensures
        canonicalizer::function_upto(scopes, s, byte, count) matches Some(f) ==> 0 <= f < count
            && canonicalizer::is_function_at(scopes, s, byte, f) && forall|g: int|
            0 <= g < count && #[trigger] canonicalizer::is_function_at(scopes, s, byte, g)
                ==> scopes[f].end_byte - scopes[f].start_byte <= scopes[g].end_byte
                - scopes[g].start_byte,
    decreases count,
{
    if count > 0 {
        lemma_function_upto(scopes, s, byte, count - 1);
        lemma_no_function_upto(scopes, s, byte, count - 1);
    }
}

proof fn lemma_no_function_upto(scopes: Seq<ScopeModel>, s: int, byte: int, count: int)
    ensures
        canonicalizer::function_upto(scopes, s, byte, count) is None ==> forall|g: int|
            0 <= g < count ==> !#[trigger] canonicalizer::is_function_at(scopes, s, byte, g),
    decreases count,
{
    if count > 0 {
        lemma_no_function_upto(scopes, s, byte, count - 1);
    }
}

/// The scope of the function that is bound at a byte is the smallest function
/// scope that covers the byte and hangs below the scope of the binding, or is
/// that scope. There is none only where no such scope covers the byte.
pub proof fn law_functions_are_named_by_their_smallest_scope(
    scopes: Seq<ScopeModel>,
    s: int,
    byte: int,
)
    ensures
        ({
            let is_one = |f: int|
                0 <= f < scopes.len() && (f == s || scopes[f].parent == Some(s))
                    && scopes[f].scope_type == ScopeType::Function && scopes[f].start_byte <= byte
                    && byte < scopes[f].end_byte;
            match canonicalizer::function_scope(scopes, s, byte) {
                Some(f) => is_one(f) && forall|g: int| #[trigger]
                    is_one(g) ==> scopes[f].end_byte - scopes[f].start_byte <= scopes[g].end_byte
                        - scopes[g].start_byte,
                None => forall|g: int| !#[trigger] is_one(g),
            }
        }),
{
    let n = scopes.len() as int;
    lemma_function_upto(scopes, s, byte, n);
    lemma_no_function_upto(scopes, s, byte, n);
    let is_one = |f: int|
        0 <= f < scopes.len() && (f == s || scopes[f].parent == Some(s)) && scopes[f].scope_type
            == ScopeType::Function && scopes[f].start_byte <= byte && byte < scopes[f].end_byte;
    assert forall|g: int| #[trigger] is_one(g) implies canonicalizer::is_function_at(
        scopes,
        s,
        byte,
        g,
    ) by {}
}

proof fn lemma_variable_tells(
    scopes: Seq<ScopeModel>,
    n: NamesModel,
    s: int,
    k: int,
)
    requires
        all_tell(scopes, n),
        0 <= s < scopes.len(),
        0 <= k < scopes[s].variables.len(),
    ensures
        all_tell(
            scopes,
            canonicalizer::named_variable(scopes, n, s, scopes[s].variables[k]).0,
        ),
{
    let v = scopes[s].variables[k];
    let (next, fault) = canonicalizer::named_variable(scopes, n, s, v);
    lemma_number_is_positive(n.used, "param_"@, n.parameters);
    lemma_number_is_positive(n.used, "class_"@, n.classes);
    lemma_number_is_positive(n.used, "var_"@, n.variables);
    if fault is None {
        let key = (s, v.name);
        let name = next.names[key];
        match v.kind {
            VariableKind::FunctionDeclaration => {
                lemma_function_upto(scopes, s, v.byte, scopes.len() as int);
                let f = canonicalizer::function_scope(scopes, s, v.byte)->0;
                let hash = canonicalizer::structure_hash(scopes[f]);
                let number = canonicalizer::function_number(n, hash);
                lemma_function_number(n.used, hash, number);
                let k = canonicalizer::fresh_function(n.used, hash, number)->0;
                assert(name == canonicalizer::function_name(hash, k));
                if k != 1 {
                    assert(name == ("fn_"@ + hash + "_"@) + crate::text::decimal_of(k as nat));
                    assert(is_numbered(name, "fn_"@ + hash + "_"@));
                }
            },
            VariableKind::Parameter => {
                let k = canonicalizer::fresh_number(n.used, "param_"@, n.parameters)->0;
                assert(name == "param_"@ + crate::text::decimal_of(k as nat));
            },
            VariableKind::ClassDeclaration => {
                let k = canonicalizer::fresh_number(n.used, "class_"@, n.classes)->0;
                assert(name == "class_"@ + crate::text::decimal_of(k as nat));
            },
            _ => {
                let k = canonicalizer::fresh_number(n.used, "var_"@, n.variables)->0;
                assert(name == "var_"@ + crate::text::decimal_of(k as nat));
            },
        }
        assert(tells_kind(scopes, s, scopes[s].variables[k], name));
        assert(tells_some_kind(scopes, key, name));
        assert forall|other: (int, Seq<char>)| #[trigger]
            next.names.contains_key(other) implies tells_some_kind(
            scopes,
            other,
            next.names[other],
        ) by {
            if other != key {
                assert(n.names.contains_key(other));
            }
        }
    }
}

proof fn lemma_list_tells(
    scopes: Seq<ScopeModel>,
    n: NamesModel,
    s: int,
    list: Seq<VariableModel>,
    k: int,
)
    requires
        all_tell(scopes, n),
        0 <= s < scopes.len(),
        0 <= k,
        forall|j: int|
            0 <= j < list.len() ==> scopes[s].variables.contains(#[trigger] list[j]),
    ensures
        all_tell(scopes, canonicalizer::named_from(scopes, n, s, list, k).0),
    decreases list.len() - k,
{
    if k < list.len() {
        assert(scopes[s].variables.contains(list[k]));
        let m = choose|m: int|
            0 <= m < scopes[s].variables.len() && scopes[s].variables[m] == list[k];
        lemma_variable_tells(scopes, n, s, m);
        let (next, fault) = canonicalizer::named_variable(scopes, n, s, list[k]);
        if fault is None {
            lemma_list_tells(scopes, next, s, list, k + 1);
        }
    }
}

proof fn lemma_scope_tells(scopes: Seq<ScopeModel>, n: NamesModel, s: int)
    requires
        all_tell(scopes, n),
        0 <= s < scopes.len(),
    ensures
        all_tell(scopes, canonicalizer::named_scope(scopes, n, s).0),
    decreases scopes.len() - s, scopes[s].children.len() + 1,
{
    let variables = scopes[s].variables;
    let keys = canonicalizer::place_keys(variables);
    let list = canonicalizer::by_place(variables);
    order::lemma_arranged(variables, keys);
    assert forall|j: int| 0 <= j < list.len() implies variables.contains(#[trigger] list[j]) by {
        assert(list.contains(list[j]));
    }
    lemma_list_tells(scopes, n, s, list, 0);
    let (next, fault) = canonicalizer::named_from(scopes, n, s, list, 0);
    if fault is None {
        lemma_children_tell(scopes, next, s, 0);
    }
}

proof fn lemma_children_tell(scopes: Seq<ScopeModel>, n: NamesModel, s: int, k: int)
    requires
        all_tell(scopes, n),
        0 <= s < scopes.len(),
        0 <= k,
    ensures
        all_tell(scopes, canonicalizer::named_children(scopes, n, s, k).0),
    decreases scopes.len() - s, scopes[s].children.len() - k,
{
    if k < scopes[s].children.len() {
        let child = scopes[s].children[k];
        if s < child < scopes.len() {
            lemma_scope_tells(scopes, n, child);
            let (next, fault) = canonicalizer::named_scope(scopes, n, child);
            if fault is None {
                lemma_children_tell(scopes, next, s, k + 1);
            }
        }
    }
}

/// Every name that is given tells the kind of the variable that it is given
/// to.
pub proof fn law_canonical_names_tell_kinds(
    scopes: Seq<ScopeModel>,
    rows: Seq<RowModel>,
    source: Seq<char>,
    key: (int, Seq<char>),
)
    requires
        scopes.len() > 0,
        canonical_names(scopes, rows, source).0.names.contains_key(key),
    ensures
        tells_some_kind(scopes, key, canonical_names(scopes, rows, source).0.names[key]),
{
    lemma_scope_tells(scopes, canonicalizer::no_names(rows, source), 0);
}

} // verus!
