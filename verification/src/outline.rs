//! A readable outline of a syntax tree.

use vstd::prelude::*;
use vstd::string::*;

use crate::syntax::{RowModel, SyntaxTree};
use crate::text::decimal_text;

use crate::{syntax, text};

verus! {

/// The text of a short leaf.
pub open spec fn leaf_part(rows: Seq<RowModel>, source: Seq<char>, i: int) -> Seq<char> {
    if syntax::children_of(rows, i).len() == 0 && rows[i].end_byte - rows[i].start_byte < 50 {
        " => \""@ + syntax::text_of(rows, source, i) + "\""@
    } else {
        Seq::empty()
    }
}

/// The line of a node.
pub open spec fn node_line(
    rows: Seq<RowModel>,
    source: Seq<char>,
    i: int,
    prefix: Seq<char>,
) -> Seq<char> {
    prefix + rows[i].kind + " ["@ + text::decimal_of(rows[i].start_row as nat) + ":"@
        + text::decimal_of(rows[i].start_column as nat) + "]"@ + leaf_part(rows, source, i)
        + "\n"@
}

/// The outline of a node: its line, and behind it its children, indented.
pub open spec fn outline_of(
    rows: Seq<RowModel>,
    source: Seq<char>,
    i: int,
    prefix: Seq<char>,
) -> Seq<char>
    decreases rows.len() - i, syntax::children_of(rows, i).len() + 1,
{
    node_line(rows, source, i, prefix) + children_outline(
        rows,
        source,
        i,
        prefix,
        syntax::children_of(rows, i).len() as int,
    )
}

/// The outlines of the first `count` children of a node. A child in a field is
/// put into brackets with the field's name.
pub open spec fn children_outline(
    rows: Seq<RowModel>,
    source: Seq<char>,
    i: int,
    prefix: Seq<char>,
    count: int,
) -> Seq<char>
    decreases rows.len() - i, count,
{
    if count <= 0 {
        Seq::empty()
    } else {
        let ahead = children_outline(rows, source, i, prefix, count - 1);
        let child = syntax::children_of(rows, i)[count - 1];
        if !(i < child < rows.len()) {
            ahead
        } else {
            match rows[child].field {
                Some(field) => ahead + (prefix + "  ["@ + field + "=\n"@) + outline_of(
                    rows,
                    source,
                    child,
                    prefix + "    "@,
                ) + (prefix + "  ]\n"@),
                None => ahead + (if rows[i].kind == "namespace_import"@ && rows[child].kind
                    == "identifier"@ {
                    prefix + "  NOTE: identifier in namespace_import\n"@
                } else {
                    Seq::empty()
                }) + outline_of(rows, source, child, prefix + "  "@),
            }
        }
    }
}

fn show_line(tree: &SyntaxTree, source: &str, i: usize, prefix: &str) -> (line: String)
    requires
        i < tree@.len(),
        syntax::covers(tree@, source@),
    ensures
        line@ == node_line(tree@, source@, i as int, prefix@),
{
    let row = tree.row(i);
    let children = tree.children(i);
    assert(syntax::index_views(children@).len() == children@.len());
    let leaf = if children.len() == 0 && (row.end_byte < row.start_byte || row.end_byte
        - row.start_byte < 50) {
        " => \"".to_string().concat(tree.text(i, source)).concat("\"")
    } else {
        String::new()
    };
    prefix.to_string().concat(row.kind).concat(" [").concat(
        decimal_text(row.start_row as u64).as_str(),
    ).concat(":").concat(decimal_text(row.start_column as u64).as_str()).concat("]").concat(
        leaf.as_str(),
    ).concat("\n")
}

fn show_node(tree: &SyntaxTree, source: &str, i: usize, prefix: &str) -> (outline: String)
    requires
        i < tree@.len(),
        syntax::covers(tree@, source@),
    ensures
        outline@ == outline_of(tree@, source@, i as int, prefix@),
    decreases tree@.len() - i,
{
    let mut outline = show_line(tree, source, i, prefix);
    let children = tree.children(i);
    let ghost all = syntax::children_of(tree@, i as int);
    let ghost line = outline@;
    let wide = prefix.to_string().concat("    ");
    let narrow = prefix.to_string().concat("  ");
    let mut k: usize = 0;
    assert(syntax::index_views(children@).len() == children@.len());
    assert(outline@ =~= line + children_outline(tree@, source@, i as int, prefix@, 0));
    while k < children.len()
        invariant
            i < tree@.len(),
            syntax::covers(tree@, source@),
            all == syntax::children_of(tree@, i as int),
            syntax::index_views(children@) == all,
            all.len() == children@.len(),
            forall|k: int|
                0 <= k < children@.len() ==> i < #[trigger] children@[k] < tree@.len(),
            wide@ == prefix@ + "    "@,
            narrow@ == prefix@ + "  "@,
            k <= children@.len(),
            outline@ == line + children_outline(tree@, source@, i as int, prefix@, k as int),
        decreases children@.len() - k,
    {
        let child = children[k];
        assert(all[k as int] == child as int);
        let row = tree.row(child);
        let ghost ahead = children_outline(tree@, source@, i as int, prefix@, k as int);
        match row.field {
            Some(field) => {
                let open = prefix.to_string().concat("  [").concat(field).concat("=\n");
                let inner = show_node(tree, source, child, wide.as_str());
                let close = prefix.to_string().concat("  ]\n");
                outline = outline.concat(open.as_str()).concat(inner.as_str()).concat(
                    close.as_str(),
                );
                assert(outline@ =~= line + (ahead + open@ + inner@ + close@));
            },
            None => {
                let note = if tree.is_kind(i, "namespace_import") && tree.is_kind(
                    child,
                    "identifier",
                ) {
                    prefix.to_string().concat("  NOTE: identifier in namespace_import\n")
                } else {
                    String::new()
                };
                let inner = show_node(tree, source, child, narrow.as_str());
                outline = outline.concat(note.as_str()).concat(inner.as_str());
                assert(outline@ =~= line + (ahead + note@ + inner@));
            },
        }
        k += 1;
    }
    outline
}

/// The outline of a tree.
pub fn outline(tree: &SyntaxTree, source: &str) -> (outline: String)
    requires
        syntax::covers(tree@, source@),
    ensures
        tree@.len() > 0 ==> outline@ == outline_of(tree@, source@, 0, ""@),
        tree@.len() == 0 ==> outline@ == Seq::<char>::empty(),
{
    if tree.len() == 0 {
        return String::new();
    }
    show_node(tree, source, 0, "")
}

} // verus!
