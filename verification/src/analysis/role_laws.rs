//! What an identifier does where it stands, told from the syntax around it.

use vstd::prelude::*;

use super::AnalysisReferenceRole;
use crate::syntax;
use crate::syntax::RowModel;

use super::references;

verus! {

/// Whether a node is another one or lies above it.
pub open spec fn is_at_or_above(rows: Seq<RowModel>, a: int, n: int) -> bool
    decreases n,
{
    a == n || (syntax::parent_of(rows, n) matches Some(parent) && 0 <= parent < n
        && is_at_or_above(rows, a, parent))
}

/// Whether a node lies above another one.
pub open spec fn is_above(rows: Seq<RowModel>, a: int, n: int) -> bool {
    a != n && is_at_or_above(rows, a, n)
}

/// Whether a node only groups or takes apart what is below.
pub open spec fn only_groups(rows: Seq<RowModel>, i: int) -> bool {
    let kind = rows[i].kind;
    ||| kind == "parenthesized_expression"@
    ||| kind == "object_pattern"@
    ||| kind == "array_pattern"@
    ||| kind == "pair_pattern"@
    ||| kind == "rest_pattern"@
    ||| kind == "assignment_pattern"@
}

/// Whether what is assigned to a node is assigned to a node in it: between the
/// two there is nothing but grouping, and no access to a member of an object.
pub open spec fn takes_part(rows: Seq<RowModel>, whole: int, n: int) -> bool {
    &&& rows[whole].start_byte <= rows[n].start_byte
    &&& rows[n].end_byte <= rows[whole].end_byte
    &&& is_at_or_above(rows, whole, n)
    &&& forall|p: int| #[trigger]
        is_above(rows, p, n) && is_at_or_above(rows, whole, p) ==> {
            &&& rows[p].kind != "member_expression"@
            &&& rows[p].kind != "subscript_expression"@
            &&& p == whole || only_groups(rows, p) || rows[p].kind == "update_expression"@
        }
}

/// Whether a node sets a name that stands in it.
pub open spec fn assigns(rows: Seq<RowModel>, a: int, n: int) -> bool {
    &&& rows[a].kind == "assignment_expression"@ || rows[a].kind == "for_in_statement"@
        || rows[a].kind == "for_of_statement"@
    &&& syntax::child_by_field(rows, a, "left"@) matches Some(left) && takes_part(rows, left, n)
}

/// Whether a node reads a name that stands in it and sets it anew.
pub open spec fn updates(rows: Seq<RowModel>, a: int, n: int) -> bool {
    ||| rows[a].kind == "augmented_assignment_expression"@ && (syntax::child_by_field(
        rows,
        a,
        "left"@,
    ) matches Some(left) && takes_part(rows, left, n))
    ||| rows[a].kind == "update_expression"@ && takes_part(rows, a, n)
}

/// Whether a node is the nearest around a name that sets it.
pub open spec fn sets_first(rows: Seq<RowModel>, a: int, n: int) -> bool {
    &&& is_above(rows, a, n)
    &&& assigns(rows, a, n) || updates(rows, a, n)
    &&& forall|b: int|
        a < b && #[trigger] is_above(rows, b, n) ==> !assigns(rows, b, n) && !updates(rows, b, n)
}

/// Whether a node is the outermost of the groups around a name.
pub open spec fn is_whole_group(rows: Seq<RowModel>, top: int, n: int) -> bool {
    &&& is_at_or_above(rows, top, n)
    &&& forall|p: int| #[trigger]
        is_above(rows, p, n) && is_at_or_above(rows, top, p) ==> only_groups(rows, p)
    &&& syntax::parent_of(rows, top) matches Some(parent) ==> !only_groups(rows, parent)
}

/// Whether a role is that of a place: what is called, what is constructed,
/// what is exported, or else what is read.
pub open spec fn is_role_at(
    rows: Seq<RowModel>,
    top: int,
    role: AnalysisReferenceRole,
) -> bool {
    let parent = syntax::parent_of(rows, top);
    let called = parent matches Some(p) && rows[p].kind == "call_expression"@ && rows[top].field
        == Some("function"@);
    let constructed = parent matches Some(p) && rows[p].kind == "new_expression"@
        && rows[top].field == Some("constructor"@);
    let exported = parent matches Some(p) && rows[p].kind == "export_specifier"@
        && rows[top].field == Some("name"@);
    &&& called ==> role == AnalysisReferenceRole::Call
    &&& constructed ==> role == AnalysisReferenceRole::Construct
    &&& exported ==> role == AnalysisReferenceRole::Export
    &&& !called && !constructed && !exported ==> role == AnalysisReferenceRole::Read
}

proof fn lemma_above_is_earlier(rows: Seq<RowModel>, a: int, n: int)
    requires
        is_at_or_above(rows, a, n),
    ensures
        a <= n,
    decreases n,
{
    if a != n {
        lemma_above_is_earlier(rows, a, syntax::parent_of(rows, n)->0);
    }
}

proof fn lemma_climbs(rows: Seq<RowModel>, whole: int, n: int)
    ensures
        references::climbs_to(rows, whole, n) == (is_at_or_above(rows, whole, n) && forall|p: int|
         #[trigger]
            is_above(rows, p, n) && is_at_or_above(rows, whole, p) ==> {
                &&& rows[p].kind != "member_expression"@
                &&& rows[p].kind != "subscript_expression"@
                &&& p == whole || only_groups(rows, p) || rows[p].kind == "update_expression"@
            }),
    decreases n,
{
    if whole == n {
        assert forall|p: int| #[trigger]
            is_above(rows, p, n) && is_at_or_above(rows, whole, p) implies {
            &&& rows[p].kind != "member_expression"@
            &&& rows[p].kind != "subscript_expression"@
            &&& p == whole || only_groups(rows, p) || rows[p].kind == "update_expression"@
        } by {
            lemma_above_is_earlier(rows, p, n);
            lemma_above_is_earlier(rows, whole, p);
        }
    } else if let Some(parent) = syntax::parent_of(rows, n) {
        syntax::lemma_parent_is_earlier(rows, n, n - 1);
        lemma_climbs(rows, whole, parent);
        if is_at_or_above(rows, whole, n) {
            lemma_above_is_earlier(rows, whole, parent);
            assert(is_at_or_above(rows, parent, parent));
            assert(is_above(rows, parent, n));
            assert forall|p: int| #[trigger] is_above(rows, p, parent) implies is_above(
                rows,
                p,
                n,
            ) by {
                lemma_above_is_earlier(rows, p, parent);
            }
            assert forall|p: int| #[trigger] is_above(rows, p, n) && p != parent implies is_above(
                rows,
                p,
                parent,
            ) by {}
        }
    }
}

proof fn lemma_target(rows: Seq<RowModel>, whole: int, n: int)
    ensures
        references::is_target(rows, whole, n) == takes_part(rows, whole, n),
{
    lemma_climbs(rows, whole, n);
}

proof fn lemma_words_differ()
    ensures
        "assignment_expression"@ != "augmented_assignment_expression"@,
        "assignment_expression"@ != "update_expression"@,
        "for_in_statement"@ != "augmented_assignment_expression"@,
        "for_in_statement"@ != "update_expression"@,
        "for_of_statement"@ != "augmented_assignment_expression"@,
        "for_of_statement"@ != "update_expression"@,
        "call_expression"@ != "new_expression"@,
        "call_expression"@ != "export_specifier"@,
        "new_expression"@ != "export_specifier"@,
        "function"@ != "constructor"@,
{
    reveal_strlit("assignment_expression");
    reveal_strlit("augmented_assignment_expression");
    reveal_strlit("update_expression");
    reveal_strlit("for_in_statement");
    reveal_strlit("for_of_statement");
    reveal_strlit("call_expression");
    reveal_strlit("new_expression");
    reveal_strlit("export_specifier");
    reveal_strlit("function");
    reveal_strlit("constructor");
    assert("assignment_expression"@.len() == 21);
    assert("augmented_assignment_expression"@.len() == 31);
    assert("update_expression"@.len() == 17);
    assert("for_in_statement"@.len() == 16);
    assert("for_of_statement"@.len() == 16);
    assert("call_expression"@.len() == 15);
    assert("new_expression"@.len() == 14);
    assert("export_specifier"@.len() == 16);
    assert("function"@.len() == 8);
    assert("constructor"@.len() == 11);
}

/// What the nearest ancestor at or above `top` that sets a name makes of it.
proof fn lemma_written(rows: Seq<RowModel>, n: int, top: Option<int>)
    requires
        top matches Some(t) ==> 0 <= t < n && is_above(rows, t, n),
        forall|b: int| #[trigger]
            is_above(rows, b, n) && (top matches Some(t) ==> t < b) ==> !assigns(rows, b, n)
                && !updates(rows, b, n),
        top is Some || syntax::parent_of(rows, n) is None || forall|b: int|
            !#[trigger] is_above(rows, b, n) || (!assigns(rows, b, n) && !updates(rows, b, n)),
    ensures
        match references::written_role(rows, n, top) {
            Some(role) => exists|a: int| #[trigger]
                sets_first(rows, a, n) && (if assigns(rows, a, n) {
                    role == AnalysisReferenceRole::Write
                } else {
                    role == AnalysisReferenceRole::ReadWrite
                }),
            None => forall|b: int| #[trigger]
                is_above(rows, b, n) ==> !assigns(rows, b, n) && !updates(rows, b, n),
        },
    decreases
            (match top {
                Some(t) => t + 1,
                None => 0,
            }),
{
    lemma_words_differ();
    if let Some(t) = top {
        lemma_target(rows, t, n);
        if let Some(left) = syntax::child_by_field(rows, t, "left"@) {
            lemma_target(rows, left, n);
        }
        if assigns(rows, t, n) || updates(rows, t, n) {
            assert(sets_first(rows, t, n));
        } else {
            syntax::lemma_parent_is_earlier(rows, t, t - 1);
            let next = syntax::parent_of(rows, t);
            assert forall|b: int| #[trigger]
                is_above(rows, b, n) && (next matches Some(u) ==> u < b) implies !assigns(
                rows,
                b,
                n,
            ) && !updates(rows, b, n) by {
                if b < t {
                    lemma_on_one_line(rows, b, t, n);
                    lemma_above_is_earlier(rows, b, next->0);
                }
            }
            if let Some(u) = next {
                lemma_above_adds_up(rows, u, t, n);
                lemma_written(rows, n, Some(u));
            }
        }
    }
}

/// Of two nodes above a third, the earlier one lies above the other.
proof fn lemma_on_one_line(rows: Seq<RowModel>, a: int, b: int, n: int)
    requires
        is_at_or_above(rows, a, n),
        is_at_or_above(rows, b, n),
        a < b,
    ensures
        is_at_or_above(rows, a, b),
        syntax::parent_of(rows, b) is Some,
        is_at_or_above(rows, a, syntax::parent_of(rows, b)->0),
    decreases n,
{
    if b != n {
        lemma_above_is_earlier(rows, b, n);
        lemma_on_one_line(rows, a, b, syntax::parent_of(rows, n)->0);
    }
}

proof fn lemma_above_adds_up(rows: Seq<RowModel>, u: int, t: int, n: int)
    requires
        syntax::parent_of(rows, t) == Some(u),
        0 <= u < t,
        is_at_or_above(rows, t, n),
    ensures
        is_above(rows, u, n),
    decreases n,
{
    assert(is_at_or_above(rows, u, u));
    lemma_above_is_earlier(rows, t, n);
    if t != n {
        lemma_above_adds_up(rows, u, t, syntax::parent_of(rows, n)->0);
    }
}

proof fn lemma_used(rows: Seq<RowModel>, top: int, n: int)
    requires
        0 <= top <= n,
        is_at_or_above(rows, top, n),
        forall|p: int| #[trigger]
            is_above(rows, p, n) && is_at_or_above(rows, top, p) ==> only_groups(rows, p),
    ensures
        exists|t: int| #[trigger]
            is_whole_group(rows, t, n) && is_role_at(rows, t, references::used_role(rows, top)),
    decreases top,
{
    lemma_words_differ();
    lemma_groups_do_nothing_else(rows);
    syntax::lemma_parent_is_earlier(rows, top, top - 1);
    if let Some(parent) = syntax::parent_of(rows, top) {
        if only_groups(rows, parent) {
            lemma_above_adds_up(rows, parent, top, n);
            assert forall|p: int| #[trigger]
                is_above(rows, p, n) && is_at_or_above(rows, parent, p) implies only_groups(
                rows,
                p,
            ) by {
                if p < top {
                    lemma_on_one_line(rows, p, top, n);
                    lemma_above_is_earlier(rows, p, parent);
                    lemma_above_is_earlier(rows, parent, p);
                } else if p == top {
                    assert(is_at_or_above(rows, top, top));
                } else {
                    lemma_on_one_line(rows, top, p, n);
                }
            }
            lemma_used(rows, parent, n);
        } else {
            assert(is_whole_group(rows, top, n));
        }
    } else {
        assert(is_whole_group(rows, top, n));
    }
}

proof fn lemma_groups_do_nothing_else(rows: Seq<RowModel>)
    ensures
        forall|p: int| #[trigger]
            only_groups(rows, p) ==> rows[p].kind != "call_expression"@ && rows[p].kind
                != "new_expression"@ && rows[p].kind != "export_specifier"@,
{
    reveal_strlit("call_expression");
    reveal_strlit("new_expression");
    reveal_strlit("export_specifier");
    reveal_strlit("parenthesized_expression");
    reveal_strlit("object_pattern");
    reveal_strlit("array_pattern");
    reveal_strlit("pair_pattern");
    reveal_strlit("rest_pattern");
    reveal_strlit("assignment_pattern");
    assert("call_expression"@.len() == 15);
    assert("new_expression"@.len() == 14 && "new_expression"@[0] == 'n');
    assert("export_specifier"@.len() == 16);
    assert("parenthesized_expression"@.len() == 24);
    assert("object_pattern"@.len() == 14 && "object_pattern"@[0] == 'o');
    assert("array_pattern"@.len() == 13);
    assert("pair_pattern"@.len() == 12);
    assert("rest_pattern"@.len() == 12);
    assert("assignment_pattern"@.len() == 18);
}

/// The role of a name follows from the syntax around it. The nearest node
/// around it that sets it decides: an assignment or a loop writes it, an
/// augmented assignment or an update reads and writes it. Where nothing sets
/// it, it is called, constructed, exported or read, by the place where the
/// groups around it stand.
pub proof fn law_roles_follow_from_the_syntax(rows: Seq<RowModel>, n: int)
    requires
        0 <= n < rows.len(),
    ensures
        ({
            let role = references::role_of(rows, n);
            &&& forall|a: int| #[trigger]
                sets_first(rows, a, n) && assigns(rows, a, n) ==> role
                    == AnalysisReferenceRole::Write
            &&& forall|a: int| #[trigger]
                sets_first(rows, a, n) && updates(rows, a, n) ==> role
                    == AnalysisReferenceRole::ReadWrite
            &&& role == AnalysisReferenceRole::Write || role == AnalysisReferenceRole::ReadWrite
                ==> exists|a: int| #[trigger] sets_first(rows, a, n)
            &&& (forall|a: int| !#[trigger] sets_first(rows, a, n)) ==> exists|t: int| #[trigger]
                is_whole_group(rows, t, n) && is_role_at(rows, t, role)
        }),
{
    let parent = syntax::parent_of(rows, n);
    lemma_words_differ();
    syntax::lemma_parent_is_earlier(rows, n, n - 1);
    assert forall|b: int| #[trigger] is_above(rows, b, n) && (parent matches Some(t) ==> t < b)
        implies !assigns(rows, b, n) && !updates(rows, b, n) by {
        if let Some(t) = parent {
            lemma_above_is_earlier(rows, b, t);
        }
    }
    if let Some(t) = parent {
        assert(is_at_or_above(rows, t, t));
    }
    lemma_written(rows, n, parent);
    assert forall|a: int, b: int| #[trigger]
        sets_first(rows, a, n) && #[trigger] sets_first(rows, b, n) implies a == b by {}
    assert forall|p: int| #[trigger] is_above(rows, p, n) && is_at_or_above(rows, n, p) implies
        only_groups(rows, p) by {
        lemma_above_is_earlier(rows, p, n);
        lemma_above_is_earlier(rows, n, p);
    }
    lemma_used(rows, n, n);
}

} // verus!
