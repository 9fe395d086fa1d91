//! Parsing JavaScript with the tree-sitter grammar.

use vstd::prelude::*;
use vstd::string::*;

use crate::syntax;
use crate::syntax::{ParseError, RowModel, SyntaxRow, SyntaxTree};

verus! {

/// A parsed tree of `tree_sitter`.
#[verifier::external_type_specification]
#[verifier::external_body]
pub struct ExTree(tree_sitter::Tree);

/// A cursor over a tree of `tree_sitter`.
#[verifier::external_type_specification]
#[verifier::external_body]
pub struct ExTreeCursor<'a>(tree_sitter::TreeCursor<'a>);

/// The nodes that `tree_sitter::Parser::parse` finds in a JavaScript text, in
/// pre-order, or nothing where it gives no tree.
pub uninterp spec fn javascript_rows(source: Seq<char>) -> Option<Seq<RowModel>>;

/// The nodes that a `tree_sitter::Tree` holds, in pre-order.
pub uninterp spec fn tree_rows(tree: tree_sitter::Tree) -> Seq<RowModel>;

/// The nodes that a `tree_sitter::TreeCursor` moves over, in pre-order.
pub uninterp spec fn cursor_rows(cursor: tree_sitter::TreeCursor) -> Seq<RowModel>;

/// Which of its nodes a `tree_sitter::TreeCursor` is on.
pub uninterp spec fn cursor_at(cursor: tree_sitter::TreeCursor) -> int;

/// Calls `tree_sitter::Parser::parse` with the grammar of
/// `tree_sitter_javascript`, without an old tree, a timeout or a cancellation
/// flag. The tree depends on the text alone; which nodes it holds is left to
/// the name [`javascript_rows`].
#[verifier::external_body]
fn call_parse(source: &str) -> (tree: Option<tree_sitter::Tree>)
    ensures
        tree is Some == javascript_rows(source@) is Some,
        tree matches Some(tree) ==> javascript_rows(source@) == Some(tree_rows(tree)),
{
    let mut parser = tree_sitter::Parser::new();
    parser.set_language(tree_sitter_javascript::language()).ok()?;
    parser.parse(source, None)
}

/// Calls `tree_sitter::Tree::walk`: the new cursor is on the root node of the
/// tree.
#[verifier::external_body]
fn call_walk<'a>(tree: &'a tree_sitter::Tree) -> (cursor: tree_sitter::TreeCursor<'a>)
    ensures
        cursor_rows(cursor) == tree_rows(*tree),
        cursor_at(cursor) == 0,
        syntax::lists_a_tree(cursor_rows(cursor)),
{
    tree.walk()
}

/// Calls `tree_sitter::TreeCursor::goto_first_child`: the cursor moves to the
/// first child of its node, which is the next node in pre-order, or stays
/// where there is none.
#[verifier::external_body]
fn call_goto_first_child(cursor: &mut tree_sitter::TreeCursor) -> (moved: bool)
    ensures
        cursor_rows(*final(cursor)) == cursor_rows(*old(cursor)),
        moved == has_child(cursor_rows(*old(cursor)), cursor_at(*old(cursor))),
        cursor_at(*final(cursor)) == if moved {
            cursor_at(*old(cursor)) + 1
        } else {
            cursor_at(*old(cursor))
        },
{
    cursor.goto_first_child()
}

/// Calls `tree_sitter::TreeCursor::goto_next_sibling`: the cursor moves to
/// the next node that has the same parent, or stays where there is none.
#[verifier::external_body]
fn call_goto_next_sibling(cursor: &mut tree_sitter::TreeCursor) -> (moved: bool)
    ensures
        cursor_rows(*final(cursor)) == cursor_rows(*old(cursor)),
        moved == has_sibling(cursor_rows(*old(cursor)), cursor_at(*old(cursor))),
        cursor_at(*final(cursor)) == if moved {
            subtree_end(
                cursor_rows(*old(cursor)),
                cursor_at(*old(cursor)),
                cursor_at(*old(cursor)) + 1,
            )
        } else {
            cursor_at(*old(cursor))
        },
{
    cursor.goto_next_sibling()
}

/// Calls `tree_sitter::TreeCursor::goto_parent`: the cursor moves to the
/// parent of its node, or stays where it is on the root.
#[verifier::external_body]
fn call_goto_parent(cursor: &mut tree_sitter::TreeCursor) -> (moved: bool)
    ensures
        cursor_rows(*final(cursor)) == cursor_rows(*old(cursor)),
        moved == syntax::parent_of(cursor_rows(*old(cursor)), cursor_at(*old(cursor))) is Some,
        cursor_at(*final(cursor)) == match syntax::parent_of(
            cursor_rows(*old(cursor)),
            cursor_at(*old(cursor)),
        ) {
            Some(parent) => parent,
            None => cursor_at(*old(cursor)),
        },
{
    cursor.goto_parent()
}

/// Reads the node that a `tree_sitter::TreeCursor` is on, and its field name.
/// A node does not know its depth: the caller gives it.
#[verifier::external_body]
fn call_node(cursor: &tree_sitter::TreeCursor, depth: usize) -> (row: SyntaxRow)
    requires
        0 <= cursor_at(*cursor) < cursor_rows(*cursor).len(),
        depth == cursor_rows(*cursor)[cursor_at(*cursor)].depth,
    ensures
        row@ == cursor_rows(*cursor)[cursor_at(*cursor)],
{
    let (node, field) = (cursor.node(), cursor.field_name());
    let (kind, range) = (node.kind(), node.range());
    let (start_byte, end_byte) = (range.start_byte, range.end_byte);
    let (start_row, start_column) = (range.start_point.row, range.start_point.column);
    let (end_row, named, extra) = (range.end_point.row, node.is_named(), node.is_extra());
    let (error, missing, has_error) = (node.is_error(), node.is_missing(), node.has_error());
    SyntaxRow { depth, kind, field, start_byte, end_byte, start_row, start_column, end_row, named, extra, error, missing, has_error }
}

/// Whether the node behind row `i` is its first child.
pub open spec fn has_child(rows: Seq<RowModel>, i: int) -> bool {
    i + 1 < rows.len() && rows[i + 1].depth == rows[i].depth + 1
}

/// The first row from `from` on that is not below row `i`.
pub open spec fn subtree_end(rows: Seq<RowModel>, i: int, from: int) -> int
    decreases rows.len() - from,
{
    if from < 0 || from >= rows.len() || rows[from].depth <= rows[i].depth {
        from
    } else {
        subtree_end(rows, i, from + 1)
    }
}

/// Whether the row behind everything below row `i` has the same parent.
pub open spec fn has_sibling(rows: Seq<RowModel>, i: int) -> bool {
    let end = subtree_end(rows, i, i + 1);
    end < rows.len() && rows[end].depth == rows[i].depth
}

proof fn lemma_parent_depth(rows: Seq<RowModel>, i: int, from: int)
    requires
        syntax::lists_a_tree(rows),
        0 <= i < rows.len(),
        -1 <= from < i,
        rows[i].depth > 0,
        forall|j: int| from < j < i ==> (#[trigger] rows[j]).depth >= rows[i].depth,
    ensures
        syntax::parent_search(rows, i, from) is Some,
        ({
            let parent = syntax::parent_search(rows, i, from)->0;
            &&& 0 <= parent <= from
            &&& rows[parent].depth == rows[i].depth - 1
            &&& forall|j: int| parent < j < i ==> (#[trigger] rows[j]).depth >= rows[i].depth
        }),
    decreases from + 1,
{
    if from < 0 {
        assert(syntax::depth_fits(rows, 0));
        assert(rows[0].depth == 0);
    } else if rows[from].depth < rows[i].depth {
        assert(syntax::depth_fits(rows, from + 1));
        assert(rows[from + 1].depth >= rows[i].depth);
    } else {
        lemma_parent_depth(rows, i, from - 1);
    }
}

proof fn lemma_subtree_end(rows: Seq<RowModel>, i: int, from: int, end: int)
    requires
        0 <= i < from <= end <= rows.len(),
        forall|j: int| from <= j < end ==> (#[trigger] rows[j]).depth > rows[i].depth,
        end < rows.len() ==> rows[end].depth <= rows[i].depth,
    ensures
        subtree_end(rows, i, from) == end,
    decreases end - from,
{
    if from < end {
        lemma_subtree_end(rows, i, from + 1, end);
    }
}

/// Lists the nodes of a text in pre-order.
pub fn syntax_rows(source: &str) -> (rows: Option<Vec<SyntaxRow>>)
    ensures
        match (rows, javascript_rows(source@)) {
            (Some(rows), Some(models)) => syntax::row_views(rows@) == models
                && syntax::lists_a_tree(models),
            (None, None) => true,
            _ => false,
        },
{
    let tree = match call_parse(source) {
        None => {
            return None;
        },
        Some(tree) => tree,
    };
    let mut cursor = call_walk(&tree);
    let ghost models = tree_rows(tree);
    let mut rows: Vec<SyntaxRow> = Vec::new();
    let mut depth: usize = 0;
    let ghost mut i: int = 0;
    proof {
        assert(syntax::depth_fits(models, 0));
        assert(syntax::row_views(rows@) =~= models.take(0));
    }
    loop
        invariant
            javascript_rows(source@) == Some(models),
            syntax::lists_a_tree(models),
            cursor_rows(cursor) == models,
            cursor_at(cursor) == i,
            0 <= i < models.len(),
            depth == models[i].depth,
            depth <= i,
            syntax::row_views(rows@) == models.take(i),
        decreases models.len() - i,
    {
        let ghost before = rows@;
        let row = call_node(&cursor, depth);
        rows.push(row);
        proof {
            assert(syntax::row_views(rows@) =~= syntax::row_views(before).push(row@));
            assert(models.take(i + 1) =~= models.take(i).push(models[i]));
            if i + 1 < models.len() {
                assert(syntax::depth_fits(models, i + 1));
            }
        }
        if call_goto_first_child(&mut cursor) {
            assert(depth < rows.len());
            depth += 1;
            proof {
                i = i + 1;
            }
            continue;
        }
        let mut found = false;
        while !found
            invariant
                javascript_rows(source@) == Some(models),
                syntax::lists_a_tree(models),
                cursor_rows(cursor) == models,
                0 <= i < models.len(),
                syntax::row_views(rows@) == models.take(i + 1),
                models[i].depth <= i,
                found ==> i + 1 < models.len() && cursor_at(cursor) == i + 1 && depth
                    == models[i + 1].depth,
                !found ==> {
                    let a = cursor_at(cursor);
                    &&& 0 <= a <= i
                    &&& depth == models[a].depth
                    &&& forall|j: int| a < j <= i ==> (#[trigger] models[j]).depth
                        > models[a].depth
                    &&& i + 1 < models.len() ==> models[i + 1].depth <= models[a].depth
                },
            decreases (if found { 0int } else { depth + 1 }),
        {
            let ghost a = cursor_at(cursor);
            proof {
                lemma_subtree_end(models, a, a + 1, i + 1);
            }
            if call_goto_next_sibling(&mut cursor) {
                found = true;
            } else {
                proof {
                    if models[a].depth > 0 {
                        lemma_parent_depth(models, a, a - 1);
                    } else {
                        lemma_root_has_no_parent(models, a, a - 1);
                    }
                    assert(i + 1 < models.len() ==> syntax::depth_fits(models, i + 1));
                }
                if !call_goto_parent(&mut cursor) {
                    assert(models.take(i + 1) =~= models);
                    return Some(rows);
                }
                depth -= 1;
            }
        }
        proof {
            assert(syntax::depth_fits(models, i + 1));
            i = i + 1;
        }
    }
}

proof fn lemma_root_has_no_parent(rows: Seq<RowModel>, i: int, from: int)
    requires
        syntax::lists_a_tree(rows),
        0 <= i < rows.len(),
        from < i,
        rows[i].depth == 0,
    ensures
        syntax::parent_search(rows, i, from) is None,
    decreases from + 1,
{
    if from >= 0 {
        assert(syntax::depth_fits(rows, from));
        lemma_root_has_no_parent(rows, i, from - 1);
    }
}

/// The one-based number of a zero-based line or column.
pub open spec fn one_based(number: int) -> usize {
    if number < usize::MAX {
        (number + 1) as usize
    } else {
        usize::MAX
    }
}

/// The first row from `i` on that is an error or stands for missing text.
pub open spec fn error_from(rows: Seq<RowModel>, i: int) -> Option<int>
    decreases rows.len() - i,
{
    if i < 0 || i >= rows.len() {
        None
    } else if rows[i].error || rows[i].missing {
        Some(i)
    } else {
        error_from(rows, i + 1)
    }
}

/// What a text with these nodes is parsed to: an error where the root holds
/// one, at the first node that is one, and else the tree.
pub open spec fn parse_outcome(source: Seq<char>, rows: Seq<RowModel>) -> Result<
    Seq<RowModel>,
    ParseError,
> {
    if !syntax::lists_a_tree(rows) {
        Err(ParseError::Malformed)
    } else if rows[0].has_error {
        let place = rows[match error_from(rows, 0) {
            Some(row) => row,
            None => 0,
        }];
        Err(
            ParseError::Syntax {
                line: one_based(place.start_row),
                column: one_based(place.start_column),
            },
        )
    } else if !syntax::covers(rows, source) {
        Err(ParseError::Malformed)
    } else {
        Ok(rows)
    }
}

/// What a text is parsed to.
pub open spec fn parsed(source: Seq<char>) -> Result<Seq<RowModel>, ParseError> {
    match javascript_rows(source) {
        None => Err(ParseError::NoTree),
        Some(rows) => parse_outcome(source, rows),
    }
}

/// Whether a tree or error is the given outcome.
pub open spec fn is_outcome(
    result: Result<SyntaxTree, ParseError>,
    outcome: Result<Seq<RowModel>, ParseError>,
) -> bool {
    match (result, outcome) {
        (Ok(tree), Ok(rows)) => tree@ == rows,
        (Err(a), Err(b)) => a == b,
        _ => false,
    }
}

fn to_one_based(number: usize) -> (r: usize)
    ensures
        r == one_based(number as int),
{
    if number < usize::MAX {
        number + 1
    } else {
        usize::MAX
    }
}

/// Parses what the parser reported for a text.
pub fn tree_from_rows(source: &str, rows: Vec<SyntaxRow>) -> (r: Result<SyntaxTree, ParseError>)
    ensures
        is_outcome(r, parse_outcome(source@, syntax::row_views(rows@))),
        r matches Ok(tree) ==> syntax::lists_a_tree(tree@) && syntax::covers(tree@, source@)
            && tree@ == syntax::row_views(rows@),
{
    let ghost models = syntax::row_views(rows@);
    if !syntax::rows_list_a_tree(&rows) {
        return Err(ParseError::Malformed);
    }
    assert(models[0] == rows@[0]@);
    if rows[0].has_error {
        let mut i: usize = 0;
        while i < rows.len() && !(rows[i].error || rows[i].missing)
            invariant
                i <= rows@.len(),
                models == syntax::row_views(rows@),
                error_from(models, 0) == error_from(models, i as int),
            decreases rows@.len() - i,
        {
            assert(models[i as int] == rows@[i as int]@);
            i += 1;
        }
        let place = if i < rows.len() {
            assert(models[i as int] == rows@[i as int]@);
            rows[i]
        } else {
            rows[0]
        };
        return Err(
            ParseError::Syntax {
                line: to_one_based(place.start_row),
                column: to_one_based(place.start_column),
            },
        );
    }
    SyntaxTree::from_rows(source, rows)
}

/// A parser for JavaScript.
#[derive(Debug)]
pub struct JsParser {}

impl JsParser {
    pub fn new() -> (r: Result<JsParser, ParseError>)
        ensures
            r is Ok,
    {
        Ok(JsParser {  })
    }

    /// Parses a text without syntax errors.
    pub fn parse(&mut self, source: &str) -> (r: Result<SyntaxTree, ParseError>)
        ensures
            is_outcome(r, parsed(source@)),
            r matches Ok(tree) ==> syntax::lists_a_tree(tree@) && syntax::covers(tree@, source@),
    {
        match syntax_rows(source) {
            None => Err(ParseError::NoTree),
            Some(rows) => tree_from_rows(source, rows),
        }
    }

    /// Parses a text that may hold syntax errors.
    pub fn parse_tolerant(&mut self, source: &str) -> (tree: Option<SyntaxTree>)
        ensures
            match (tree, javascript_rows(source@)) {
                (Some(tree), Some(rows)) => tree@ == rows && syntax::covers(rows, source@),
                (None, Some(rows)) => !syntax::covers(rows, source@),
                (None, None) => true,
                _ => false,
            },
    {
        match syntax_rows(source) {
            None => None,
            Some(rows) => match SyntaxTree::from_rows(source, rows) {
                Ok(tree) => Some(tree),
                Err(_) => None,
            },
        }
    }
}

} // verus!
