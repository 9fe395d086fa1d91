//! Which identifiers declarations bind, told from the identifiers upwards.

use vstd::prelude::*;

use crate::syntax;
use crate::syntax::RowModel;

use super::bindings;

verus! {

/// Whether what node `x` binds is bound by the pattern `parent` as well: by
/// any part of an object, array or rest pattern, by the value of a pair, and by
/// the left side of a default.
pub open spec fn passes_up(rows: Seq<RowModel>, x: int, parent: int) -> bool {
    let kind = rows[parent].kind;
    &&& syntax::parent_of(rows, x) == Some(parent)
    &&& {
        ||| kind == "object_pattern"@ || kind == "array_pattern"@ || kind == "rest_pattern"@
        ||| kind == "pair_pattern"@ && syntax::child_by_field(rows, parent, "value"@) == Some(x)
        ||| (kind == "assignment_pattern"@ || kind == "object_assignment_pattern"@)
            && syntax::child_by_field(rows, parent, "left"@) == Some(x)
    }
}

/// Whether patterns lead from a node up to another.
pub open spec fn leads_up(rows: Seq<RowModel>, x: int, top: int) -> bool
    decreases x,
{
    x == top || (syntax::parent_of(rows, x) matches Some(parent) && 0 <= parent < x && passes_up(
        rows,
        x,
        parent,
    ) && leads_up(rows, parent, top))
}

/// Whether a pattern binds an identifier: patterns lead from it up to the
/// pattern.
pub open spec fn is_bound_by(rows: Seq<RowModel>, x: int, pattern: int) -> bool {
    &&& rows[x].kind == "identifier"@ || rows[x].kind == "shorthand_property_identifier_pattern"@
    &&& leads_up(rows, x, pattern)
}

/// Whether a node is a pattern or can only be a plain name.
spec fn is_plain(kind: Seq<char>) -> bool {
    kind == "identifier"@ || kind == "shorthand_property_identifier_pattern"@
}

proof fn lemma_leads_on(rows: Seq<RowModel>, x: int, c: int, top: int)
    requires
        leads_up(rows, x, c),
        passes_up(rows, c, top),
        0 <= top < c,
    ensures
        leads_up(rows, x, top),
    decreases x,
{
    if x == c {
        assert(leads_up(rows, top, top));
    } else {
        lemma_leads_on(rows, syntax::parent_of(rows, x)->0, c, top);
    }
}

proof fn lemma_leads_through(rows: Seq<RowModel>, x: int, top: int)
    requires
        leads_up(rows, x, top),
        x != top,
    ensures
        exists|c: int| #[trigger] passes_up(rows, c, top) && leads_up(rows, x, c) && c <= x,
    decreases x,
{
    let parent = syntax::parent_of(rows, x)->0;
    if parent == top {
        assert(leads_up(rows, x, x));
        assert(passes_up(rows, x, top));
    } else {
        lemma_leads_through(rows, parent, top);
        let c = choose|c: int| #[trigger]
            passes_up(rows, c, top) && leads_up(rows, parent, c) && c <= parent;
        assert(leads_up(rows, x, c));
        assert(passes_up(rows, c, top));
    }
}

pub(crate) proof fn lemma_names_are_told_apart()
    ensures
        "identifier"@ != "object_pattern"@,
        "identifier"@ != "array_pattern"@,
        "identifier"@ != "rest_pattern"@,
        "identifier"@ != "pair_pattern"@,
        "identifier"@ != "assignment_pattern"@,
        "identifier"@ != "object_assignment_pattern"@,
        "shorthand_property_identifier_pattern"@ != "object_pattern"@,
        "shorthand_property_identifier_pattern"@ != "array_pattern"@,
        "shorthand_property_identifier_pattern"@ != "rest_pattern"@,
        "shorthand_property_identifier_pattern"@ != "pair_pattern"@,
        "shorthand_property_identifier_pattern"@ != "assignment_pattern"@,
        "shorthand_property_identifier_pattern"@ != "object_assignment_pattern"@,
        "object_pattern"@ != "pair_pattern"@,
        "array_pattern"@ != "pair_pattern"@,
        "rest_pattern"@ != "pair_pattern"@,
        "object_pattern"@ != "assignment_pattern"@,
        "array_pattern"@ != "assignment_pattern"@,
        "rest_pattern"@ != "assignment_pattern"@,
        "pair_pattern"@ != "assignment_pattern"@,
        "object_pattern"@ != "object_assignment_pattern"@,
        "array_pattern"@ != "object_assignment_pattern"@,
        "rest_pattern"@ != "object_assignment_pattern"@,
        "pair_pattern"@ != "object_assignment_pattern"@,
{
    reveal_strlit("identifier");
    reveal_strlit("shorthand_property_identifier_pattern");
    reveal_strlit("object_pattern");
    reveal_strlit("array_pattern");
    reveal_strlit("rest_pattern");
    reveal_strlit("pair_pattern");
    reveal_strlit("assignment_pattern");
    reveal_strlit("object_assignment_pattern");
    assert("identifier"@.len() == 10);
    assert("shorthand_property_identifier_pattern"@.len() == 37);
    assert("object_pattern"@.len() == 14);
    assert("array_pattern"@.len() == 13);
    assert("assignment_pattern"@.len() == 18);
    assert("object_assignment_pattern"@.len() == 25);
    assert("rest_pattern"@[0] == 'r');
    assert("pair_pattern"@[0] == 'p');
}

proof fn lemma_bound_in(rows: Seq<RowModel>, i: int, x: int)
    requires
        syntax::lists_a_tree(rows),
        0 <= i < rows.len(),
        0 <= x < rows.len(),
    ensures
        bindings::bound_in(rows, i).contains(x) <==> is_bound_by(rows, x, i),
    decreases rows.len() - i, syntax::children_of(rows, i).len() + 1,
{
    let kind = rows[i].kind;
    let found = bindings::bound_in(rows, i);
    lemma_names_are_told_apart();
    syntax::law_fields_name_children(rows, i, "value"@);
    syntax::law_fields_name_children(rows, i, "left"@);
    assert(leads_up(rows, i, i));
    if is_bound_by(rows, x, i) && x != i {
        lemma_leads_through(rows, x, i);
    }
    if is_plain(kind) {
        assert(found =~= seq![i]);
        if found.contains(x) {
            assert(x == i);
        }
        assert(seq![i][0] == i);
        if is_bound_by(rows, x, i) {
            assert(x == i);
        }
    } else if kind == "object_pattern"@ || kind == "array_pattern"@ || kind == "rest_pattern"@ {
        let children = syntax::children_of(rows, i);
        syntax::lemma_children(rows, i, rows.len() as int);
        lemma_bound_in_children(rows, i, 0, x);
        if found.contains(x) {
            let m = choose|m: int|
                0 <= m < children.len() && bindings::bound_in(
                    rows,
                    #[trigger] children[m],
                ).contains(x);
            let c = children[m];
            lemma_bound_in(rows, c, x);
            assert(passes_up(rows, c, i));
            lemma_leads_on(rows, x, c, i);
        }
        if is_bound_by(rows, x, i) {
            let c = choose|c: int| #[trigger]
                passes_up(rows, c, i) && leads_up(rows, x, c) && c <= x;
            syntax::lemma_parent_is_earlier(rows, c, c - 1);
            assert(0 <= c < rows.len()) by {
                if c < 0 {
                    assert(syntax::parent_of(rows, c) is None);
                }
            }
            syntax::lemma_is_child(rows, i, c, rows.len() as int);
            let m = choose|m: int| 0 <= m < children.len() && children[m] == c;
            lemma_bound_in(rows, children[m], x);
        }
    } else if kind == "pair_pattern"@ {
        if let Some(value) = syntax::child_by_field(rows, i, "value"@) {
            lemma_bound_in(rows, value, x);
            if found.contains(x) {
                assert(passes_up(rows, value, i));
                lemma_leads_on(rows, x, value, i);
            }
        }
    } else if kind == "assignment_pattern"@ || kind == "object_assignment_pattern"@ {
        if let Some(left) = syntax::child_by_field(rows, i, "left"@) {
            lemma_bound_in(rows, left, x);
            if found.contains(x) {
                assert(passes_up(rows, left, i));
                lemma_leads_on(rows, x, left, i);
            }
        }
    }
}

pub(crate) proof fn lemma_bound_in_children(rows: Seq<RowModel>, i: int, k: int, x: int)
    requires
        syntax::lists_a_tree(rows),
        0 <= i < rows.len(),
        0 <= x < rows.len(),
        0 <= k <= syntax::children_of(rows, i).len(),
    ensures
        bindings::bound_in_children(rows, i, k).contains(x) <==> exists|m: int|
            k <= m < syntax::children_of(rows, i).len() && bindings::bound_in(
                rows,
                #[trigger] syntax::children_of(rows, i)[m],
            ).contains(x),
    decreases rows.len() - i, syntax::children_of(rows, i).len() - k,
{
    let children = syntax::children_of(rows, i);
    if k < children.len() {
        syntax::lemma_children(rows, i, rows.len() as int);
        lemma_bound_in_children(rows, i, k + 1, x);
        let own = bindings::bound_in(rows, children[k]);
        let rest = bindings::bound_in_children(rows, i, k + 1);
        let all = bindings::bound_in_children(rows, i, k);
        assert(all == own + rest);
        lemma_in_either(own, rest, x);
        if all.contains(x) && !own.contains(x) {
            let m = choose|m: int|
                k + 1 <= m < children.len() && bindings::bound_in(
                    rows,
                    #[trigger] children[m],
                ).contains(x);
            assert(bindings::bound_in(rows, children[m]).contains(x));
        }
        if own.contains(x) {
            assert(bindings::bound_in(rows, children[k]).contains(x));
        }
    }
}

pub(crate) proof fn lemma_in_either<T>(a: Seq<T>, b: Seq<T>, x: T)
    ensures
        (a + b).contains(x) <==> a.contains(x) || b.contains(x),
{
    let all = a + b;
    if all.contains(x) {
        let k = choose|k: int| 0 <= k < all.len() && all[k] == x;
        if k < a.len() {
            assert(a[k] == x);
        } else {
            assert(b[k - a.len()] == x);
        }
    }
    if a.contains(x) {
        let k = choose|k: int| 0 <= k < a.len() && a[k] == x;
        assert(all[k] == x);
    }
    if b.contains(x) {
        let k = choose|k: int| 0 <= k < b.len() && b[k] == x;
        assert(all[a.len() + k] == x);
    }
}

/// A pattern binds exactly the identifiers from which patterns lead up to it:
/// keys of pairs, default values and what stands inside them bind nothing.
pub proof fn law_patterns_bind_their_identifiers(rows: Seq<RowModel>, pattern: int, x: int)
    requires
        syntax::lists_a_tree(rows),
        0 <= pattern < rows.len(),
        0 <= x < rows.len(),
    ensures
        bindings::bound_in(rows, pattern).contains(x) <==> is_bound_by(rows, x, pattern),
{
    lemma_bound_in(rows, pattern, x);
}

} // verus!
