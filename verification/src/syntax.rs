//! Syntax trees as flat tables in pre-order.

use vstd::prelude::*;
use vstd::string::*;
use vstd::utf8::*;

use crate::text;
use crate::text::{decimal_text, numbered_text, same_text, slice_text};

verus! {

/// One syntax node as the parser reports it, with its depth in the tree.
#[derive(Debug, Clone, Copy)]
pub struct SyntaxRow {
    pub depth: usize,
    pub kind: &'static str,
    pub field: Option<&'static str>,
    pub start_byte: usize,
    pub end_byte: usize,
    pub start_row: usize,
    pub start_column: usize,
    pub end_row: usize,
    pub named: bool,
    pub extra: bool,
    pub error: bool,
    pub missing: bool,
    pub has_error: bool,
}

/// The model of a [`SyntaxRow`].
pub struct RowModel {
    pub depth: int,
    pub kind: Seq<char>,
    pub field: Option<Seq<char>>,
    pub start_byte: int,
    pub end_byte: int,
    pub start_row: int,
    pub start_column: int,
    pub end_row: int,
    pub named: bool,
    pub extra: bool,
    pub error: bool,
    pub missing: bool,
    pub has_error: bool,
}

/// A field name seen as its characters.
pub open spec fn field_view(field: Option<&'static str>) -> Option<Seq<char>> {
    match field {
        Some(field) => Some(field@),
        None => None,
    }
}

impl View for SyntaxRow {
    type V = RowModel;

    open spec fn view(&self) -> RowModel {
        RowModel {
            depth: self.depth as int,
            kind: self.kind@,
            field: field_view(self.field),
            start_byte: self.start_byte as int,
            end_byte: self.end_byte as int,
            start_row: self.start_row as int,
            start_column: self.start_column as int,
            end_row: self.end_row as int,
            named: self.named,
            extra: self.extra,
            error: self.error,
            missing: self.missing,
            has_error: self.has_error,
        }
    }
}

/// Rows seen as their models.
pub open spec fn row_views(rows: Seq<SyntaxRow>) -> Seq<RowModel> {
    rows.map_values(|row: SyntaxRow| row@)
}

/// Why a text has no syntax tree.
#[derive(Debug, Clone, Copy, PartialEq, Eq, Structural)]
pub enum ParseError {
    /// The parser gave no tree.
    NoTree,
    /// The text has a syntax error near this one-based line and column.
    Syntax { line: usize, column: usize },
    /// The parser's rows are no tree over the text.
    Malformed,
}

impl ParseError {
    /// What to tell about the refusal.
    pub open spec fn message_spec(self) -> Seq<char> {
        match self {
            ParseError::NoTree => "Failed to parse JavaScript"@,
            ParseError::Syntax { line, column } =>
                "JavaScript contains a syntax error near line "@ + text::decimal_of(line as nat)
                    + ", column "@ + text::decimal_of(column as nat),
            ParseError::Malformed => "the syntax rows are no tree over the text"@,
        }
    }

    /// What to tell about the refusal.
    pub fn message(self) -> (message: String)
        ensures
            message@ == self.message_spec(),
    {
        match self {
            ParseError::NoTree => "Failed to parse JavaScript".to_string(),
            ParseError::Syntax { line, column } => numbered_text(
                "JavaScript contains a syntax error near line ",
                line as u64,
                ", column ",
            ).concat(decimal_text(column as u64).as_str()),
            ParseError::Malformed => "the syntax rows are no tree over the text".to_string(),
        }
    }
}

/// The parent of row `i`: the nearest row ahead of it that is one level up.
pub open spec fn parent_of(rows: Seq<RowModel>, i: int) -> Option<int> {
    parent_search(rows, i, i - 1)
}

/// The last row up to `from` that is shallower than row `i`.
pub open spec fn parent_search(rows: Seq<RowModel>, i: int, from: int) -> Option<int>
    decreases from + 1,
{
    if from < 0 {
        None
    } else if rows[from].depth < rows[i].depth {
        Some(from)
    } else {
        parent_search(rows, i, from - 1)
    }
}

/// The children of row `i` among the first `count` rows, in order.
pub open spec fn children_upto(rows: Seq<RowModel>, i: int, count: int) -> Seq<int>
    decreases count,
{
    if count <= 0 {
        Seq::empty()
    } else if parent_of(rows, count - 1) == Some(i) {
        children_upto(rows, i, count - 1).push(count - 1)
    } else {
        children_upto(rows, i, count - 1)
    }
}

/// The children of row `i`, in order.
pub open spec fn children_of(rows: Seq<RowModel>, i: int) -> Seq<int> {
    children_upto(rows, i, rows.len() as int)
}

/// Whether rows list a tree in pre-order: one root, and every other row at
/// most one level below the row ahead of it.
pub open spec fn lists_a_tree(rows: Seq<RowModel>) -> bool {
    &&& rows.len() > 0
    &&& forall|i: int| 0 <= i < rows.len() ==> #[trigger] depth_fits(rows, i)
}

/// Whether the depth of row `i` fits that of the row ahead of it.
pub open spec fn depth_fits(rows: Seq<RowModel>, i: int) -> bool {
    if i == 0 {
        rows[i].depth == 0
    } else {
        1 <= rows[i].depth <= rows[i - 1].depth + 1
    }
}

/// Whether every row covers a range of the text.
pub open spec fn covers(rows: Seq<RowModel>, source: Seq<char>) -> bool {
    forall|i: int|
        0 <= i < rows.len() ==> text::is_text_range(
            source,
            (#[trigger] rows[i]).start_byte,
            rows[i].end_byte,
        )
}

/// The text that row `i` covers.
pub open spec fn text_of(rows: Seq<RowModel>, source: Seq<char>, i: int) -> Seq<char> {
    text::text_between(source, rows[i].start_byte, rows[i].end_byte)
}

/// The first of the children from position `k` on that has a field name.
pub open spec fn field_search(
    rows: Seq<RowModel>,
    children: Seq<int>,
    field: Seq<char>,
    k: int,
) -> Option<int>
    decreases children.len() - k,
{
    if k < 0 || k >= children.len() {
        None
    } else if rows[children[k]].field == Some(field) {
        Some(children[k])
    } else {
        field_search(rows, children, field, k + 1)
    }
}

/// The first child of row `i` that has a field name.
pub open spec fn child_by_field(rows: Seq<RowModel>, i: int, field: Seq<char>) -> Option<int> {
    field_search(rows, children_of(rows, i), field, 0)
}

/// A syntax tree over a text, in pre-order.
pub struct SyntaxTree {
    rows: Vec<SyntaxRow>,
    parents: Vec<Option<usize>>,
    children: Vec<Vec<usize>>,
}

/// Indexes seen as integers.
pub open spec fn index_views(indexes: Seq<usize>) -> Seq<int> {
    indexes.map_values(|index: usize| index as int)
}

/// An index seen as an integer.
pub open spec fn index_view(index: Option<usize>) -> Option<int> {
    match index {
        Some(index) => Some(index as int),
        None => None,
    }
}

impl View for SyntaxTree {
    type V = Seq<RowModel>;

    closed spec fn view(&self) -> Seq<RowModel> {
        row_views(self.rows@)
    }
}

impl SyntaxTree {
    #[verifier::type_invariant]
    spec fn is_wf(self) -> bool {
        &&& lists_a_tree(self@)
        &&& self.parents@.len() == self.rows@.len()
        &&& self.children@.len() == self.rows@.len()
        &&& forall|i: int|
            0 <= i < self.rows@.len() ==> index_view(#[trigger] self.parents@[i]) == parent_of(
                self@,
                i,
            )
        &&& forall|i: int|
            0 <= i < self.rows@.len() ==> index_views((#[trigger] self.children@[i])@)
                == children_of(self@, i)
    }

    /// The number of nodes.
    pub fn len(&self) -> (count: usize)
        ensures
            count == self@.len(),
            count > 0,
            lists_a_tree(self@),
    {
        proof {
            use_type_invariant(self);
        }
        self.rows.len()
    }

    /// What the parser reported of a node.
    pub fn row(&self, i: usize) -> (row: SyntaxRow)
        requires
            i < self@.len(),
        ensures
            row@ == self@[i as int],
    {
        self.rows[i]
    }

    /// The grammar's name for a node.
    pub fn kind(&self, i: usize) -> (kind: &'static str)
        requires
            i < self@.len(),
        ensures
            kind@ == self@[i as int].kind,
    {
        self.rows[i].kind
    }

    /// Whether a node is of a kind.
    pub fn is_kind(&self, i: usize, kind: &str) -> (r: bool)
        requires
            i < self@.len(),
        ensures
            r == (self@[i as int].kind == kind@),
    {
        same_text(self.rows[i].kind, kind)
    }

    /// The parent of a node.
    pub fn parent(&self, i: usize) -> (parent: Option<usize>)
        requires
            i < self@.len(),
        ensures
            index_view(parent) == parent_of(self@, i as int),
            parent matches Some(p) ==> p < i,
    {
        proof {
            use_type_invariant(self);
            lemma_parent_is_earlier(self@, i as int, i - 1);
        }
        self.parents[i]
    }

    /// The children of a node.
    pub fn children(&self, i: usize) -> (children: &Vec<usize>)
        requires
            i < self@.len(),
        ensures
            index_views(children@) == children_of(self@, i as int),
            forall|k: int|
                0 <= k < children@.len() ==> i < #[trigger] children@[k] < self@.len(),
    {
        proof {
            use_type_invariant(self);
            lemma_children(self@, i as int, self@.len() as int);
            let children = self.children@[i as int]@;
            assert forall|k: int| 0 <= k < children.len() implies i < #[trigger] children[k]
                < self@.len() by {
                assert(index_views(children)[k] == children[k] as int);
            }
        }
        &self.children[i]
    }

    /// The first child of a node that has a field name.
    pub fn child_by_field_name(&self, i: usize, field: &str) -> (child: Option<usize>)
        requires
            i < self@.len(),
        ensures
            index_view(child) == child_by_field(self@, i as int, field@),
            child matches Some(c) ==> i < c < self@.len(),
    {
        let children = self.children(i);
        let ghost list = children_of(self@, i as int);
        let mut k: usize = 0;
        while k < children.len()
            invariant
                i < self@.len(),
                k <= children@.len(),
                index_views(children@) == list,
                list == children_of(self@, i as int),
                forall|j: int|
                    0 <= j < children@.len() ==> i < #[trigger] children@[j] < self@.len(),
                child_by_field(self@, i as int, field@) == field_search(
                    self@,
                    list,
                    field@,
                    k as int,
                ),
            decreases children@.len() - k,
        {
            let child = children[k];
            assert(list[k as int] == child as int);
            if let Some(name) = self.row(child).field {
                if same_text(name, field) {
                    return Some(child);
                }
            }
            k += 1;
        }
        None
    }

    /// The text of a node.
    pub fn text<'a>(&self, i: usize, source: &'a str) -> (t: &'a str)
        requires
            i < self@.len(),
            covers(self@, source@),
        ensures
            t@ == text_of(self@, source@, i as int),
    {
        let row = self.rows[i];
        assert(self@[i as int] == row@);
        match slice_text(source, row.start_byte, row.end_byte) {
            Some(t) => t,
            None => "",
        }
    }

    /// Whether the text of a node is a given one.
    pub fn text_is(&self, i: usize, source: &str, expected: &str) -> (r: bool)
        requires
            i < self@.len(),
            covers(self@, source@),
        ensures
            r == (text_of(self@, source@, i as int) == expected@),
    {
        same_text(self.text(i, source), expected)
    }

    /// Whether every node covers a range of a text.
    pub fn fits(&self, source: &str) -> (r: bool)
        ensures
            r == covers(self@, source@),
    {
        rows_fit(&self.rows, source)
    }

    /// Builds a tree from the rows that a parser reported for a text.
    pub fn from_rows(source: &str, rows: Vec<SyntaxRow>) -> (r: Result<SyntaxTree, ParseError>)
        ensures
            match r {
                Ok(tree) => tree@ == row_views(rows@) && lists_a_tree(tree@) && covers(
                    tree@,
                    source@,
                ),
                Err(error) => error == ParseError::Malformed && !(lists_a_tree(row_views(rows@))
                    && covers(row_views(rows@), source@)),
            },
    {
        if !rows_list_a_tree(&rows) || !rows_fit(&rows, source) {
            return Err(ParseError::Malformed);
        }
        let ghost models = row_views(rows@);
        let mut parents: Vec<Option<usize>> = Vec::new();
        let mut children: Vec<Vec<usize>> = Vec::new();
        let mut open: Vec<usize> = Vec::new();
        let mut i: usize = 0;
        while i < rows.len()
            invariant
                i <= rows@.len(),
                models == row_views(rows@),
                lists_a_tree(models),
                parents@.len() == i,
                children@.len() == i,
                forall|k: int|
                    0 <= k < i ==> index_view(#[trigger] parents@[k]) == parent_of(models, k),
                forall|k: int|
                    0 <= k < i ==> index_views((#[trigger] children@[k])@) == children_upto(
                        models,
                        k,
                        i as int,
                    ),
                i > 0 ==> is_open_path(models, index_views(open@), i - 1),
                i == 0 ==> open@.len() == 0,
            decreases rows@.len() - i,
        {
            assert(models[i as int] == rows@[i as int]@);
            assert(depth_fits(models, i as int));
            let depth: usize = rows[i].depth;
            let ghost before = open@;
            if i > 0 {
                assert(models[i - 1] == rows@[i - 1]@);
                assert(index_views(open@).len() == models[i - 1].depth + 1);
            }
            open.truncate(depth);
            proof {
                assert(open@ =~= before.take(depth as int));
                assert(index_views(open@) =~= index_views(before).take(depth as int));
                if i > 0 {
                    lemma_open_path(models, index_views(before), i as int);
                }
            }
            if open.len() > 0 {
                let parent = open[open.len() - 1];
                parents.push(Some(parent));
                let mut list = Vec::new();
                std::mem::swap(&mut list, &mut children[parent]);
                let ghost earlier = list@;
                list.push(i);
                assert(index_views(list@) =~= index_views(earlier).push(i as int));
                std::mem::swap(&mut list, &mut children[parent]);
            } else {
                parents.push(None);
            }
            let none: Vec<usize> = Vec::new();
            proof {
                assert(index_views(none@) =~= Seq::<int>::empty());
                lemma_children(models, i as int, i as int);
                lemma_no_children_yet(models, i as int, i + 1);
            }
            children.push(none);
            let ghost kept = open@;
            open.push(i);
            proof {
                assert(index_views(open@) =~= index_views(kept).push(i as int));
            }
            i += 1;
        }
        Ok(SyntaxTree { rows, parents, children })
    }
}

/// Whether `path` lists the rows from the root down to `i`, one per level.
spec fn is_open_path(rows: Seq<RowModel>, path: Seq<int>, i: int) -> bool {
    &&& path.len() == rows[i].depth + 1
    &&& path.last() == i
    &&& forall|k: int| 0 <= k < path.len() ==> 0 <= #[trigger] path[k] <= i && rows[path[k]].depth == k
    &&& forall|k: int, j: int|
        #![trigger path[k], rows[j]]
        0 <= k < path.len() && path[k] < j <= i ==> rows[j].depth > k
}

proof fn lemma_open_path(rows: Seq<RowModel>, path: Seq<int>, i: int)
    requires
        lists_a_tree(rows),
        0 < i < rows.len(),
        is_open_path(rows, path, i - 1),
    ensures
        rows[i].depth <= path.len(),
        parent_of(rows, i) == Some(path[rows[i].depth - 1]),
        0 <= path[rows[i].depth - 1] < i,
        is_open_path(rows, path.take(rows[i].depth).push(i), i),
{
    let depth = rows[i].depth;
    assert(depth_fits(rows, i));
    let parent = path[depth - 1];
    lemma_parent_found(rows, i, parent, i - 1);
    let next = path.take(depth).push(i);
    assert forall|k: int| 0 <= k < next.len() implies 0 <= #[trigger] next[k] <= i
        && rows[next[k]].depth == k by {
        if k < depth {
            assert(next[k] == path[k]);
        }
    }
    assert forall|k: int, j: int|
        #![trigger next[k], rows[j]]
        0 <= k < next.len() && next[k] < j <= i implies rows[j].depth > k by {
        if k < depth {
            assert(next[k] == path[k]);
        }
    }
}

proof fn lemma_parent_found(rows: Seq<RowModel>, i: int, parent: int, from: int)
    requires
        0 <= parent <= from < i < rows.len(),
        rows[parent].depth < rows[i].depth,
        forall|j: int| parent < j <= from ==> (#[trigger] rows[j]).depth >= rows[i].depth,
    ensures
        parent_search(rows, i, from) == Some(parent),
    decreases from,
{
    if from > parent {
        lemma_parent_found(rows, i, parent, from - 1);
    }
}

/// A parent comes ahead of its children.
pub proof fn lemma_parent_is_earlier(rows: Seq<RowModel>, i: int, from: int)
    requires
        from < i,
    ensures
        parent_search(rows, i, from) matches Some(parent) ==> 0 <= parent <= from,
    decreases from + 1,
{
    if from >= 0 && rows[from].depth >= rows[i].depth {
        lemma_parent_is_earlier(rows, i, from - 1);
    }
}

/// Children come behind their parent, and name it as theirs.
pub proof fn lemma_children(rows: Seq<RowModel>, i: int, count: int)
    ensures
        forall|k: int|
            0 <= k < children_upto(rows, i, count).len() ==> {
                let child = #[trigger] children_upto(rows, i, count)[k];
                i < child < count && parent_of(rows, child) == Some(i)
            },
    decreases count,
{
    if count > 0 {
        lemma_children(rows, i, count - 1);
        lemma_parent_is_earlier(rows, count - 1, count - 2);
    }
}

/// Every row that names a row as its parent is among its children.
pub proof fn lemma_is_child(rows: Seq<RowModel>, i: int, c: int, count: int)
    requires
        0 <= c < count,
        parent_of(rows, c) == Some(i),
    ensures
        children_upto(rows, i, count).contains(c),
    decreases count,
{
    let longer = children_upto(rows, i, count);
    if c == count - 1 {
        assert(longer[longer.len() - 1] == c);
    } else {
        let shorter = children_upto(rows, i, count - 1);
        lemma_is_child(rows, i, c, count - 1);
        let k = choose|k: int| 0 <= k < shorter.len() && shorter[k] == c;
        assert(longer[k] == c);
    }
}

proof fn lemma_parent_search(rows: Seq<RowModel>, i: int, from: int)
    requires
        0 <= i < rows.len(),
        from < i,
    ensures
        match parent_search(rows, i, from) {
            Some(p) => 0 <= p <= from && rows[p].depth < rows[i].depth && forall|j: int|
                p < j <= from ==> (#[trigger] rows[j]).depth >= rows[i].depth,
            None => forall|j: int| 0 <= j <= from ==> (#[trigger] rows[j]).depth >= rows[i].depth,
        },
    decreases from + 1,
{
    if from >= 0 && rows[from].depth >= rows[i].depth {
        lemma_parent_search(rows, i, from - 1);
    }
}

proof fn lemma_step_down(rows: Seq<RowModel>, p: int, i: int)
    requires
        lists_a_tree(rows),
        0 <= p < i < rows.len(),
        rows[p].depth < rows[i].depth,
        forall|j: int| p < j < i ==> (#[trigger] rows[j]).depth >= rows[i].depth,
    ensures
        rows[p].depth == rows[i].depth - 1,
{
    assert(depth_fits(rows, p + 1));
    if p + 1 < i {
        assert(rows[p + 1].depth >= rows[i].depth);
    }
}

/// In a listed tree every row but the first has a parent: the nearest row
/// ahead of it that is one level up, with nothing of that level or above in
/// between. The children of a row are exactly the rows that have it as their
/// parent.
pub proof fn law_rows_form_a_tree(rows: Seq<RowModel>, i: int, c: int)
    requires
        lists_a_tree(rows),
        0 <= i < rows.len(),
        0 <= c < rows.len(),
    ensures
        parent_of(rows, c) is None <==> c == 0,
        parent_of(rows, c) == Some(i) <==> (i < c && rows[i].depth == rows[c].depth - 1
            && forall|j: int| i < j < c ==> (#[trigger] rows[j]).depth >= rows[c].depth),
        children_of(rows, i).contains(c) <==> parent_of(rows, c) == Some(i),
{
    lemma_parent_search(rows, c, c - 1);
    assert(depth_fits(rows, 0));
    assert(depth_fits(rows, c));
    if let Some(p) = parent_of(rows, c) {
        lemma_step_down(rows, p, c);
        if i < c && rows[i].depth == rows[c].depth - 1 && forall|j: int|
            i < j < c ==> (#[trigger] rows[j]).depth >= rows[c].depth {
            if p < i {
                assert(rows[i].depth >= rows[c].depth);
            }
            if i < p {
                assert(rows[p].depth >= rows[c].depth);
            }
        }
    } else if c > 0 {
        assert(rows[0].depth >= rows[c].depth);
    }
    lemma_children(rows, i, rows.len() as int);
    if parent_of(rows, c) == Some(i) {
        lemma_is_child(rows, i, c, rows.len() as int);
    }
}

proof fn lemma_field_search(rows: Seq<RowModel>, children: Seq<int>, field: Seq<char>, k: int)
    requires
        0 <= k,
    ensures
        match field_search(rows, children, field, k) {
            Some(c) => exists|m: int|
                k <= m < children.len() && #[trigger] children[m] == c && rows[c].field == Some(
                    field,
                ) && forall|l: int| k <= l < m ==> rows[#[trigger] children[l]].field != Some(field),
            None => forall|l: int|
                k <= l < children.len() ==> rows[#[trigger] children[l]].field != Some(field),
        },
    decreases children.len() - k,
{
    if k < children.len() && rows[children[k]].field != Some(field) {
        lemma_field_search(rows, children, field, k + 1);
        if let Some(c) = field_search(rows, children, field, k + 1) {
            let m = choose|m: int|
                k + 1 <= m < children.len() && #[trigger] children[m] == c && rows[c].field
                    == Some(field) && forall|l: int|
                    k + 1 <= l < m ==> rows[#[trigger] children[l]].field != Some(field);
            assert(children[m] == c);
        }
    } else if k < children.len() {
        assert(children[k] == children[k]);
    }
}

/// The child behind a field name is a child that has it, and the first one.
pub proof fn law_fields_name_children(rows: Seq<RowModel>, i: int, field: Seq<char>)
    requires
        lists_a_tree(rows),
        0 <= i < rows.len(),
    ensures
        match child_by_field(rows, i, field) {
            Some(c) => i < c < rows.len() && parent_of(rows, c) == Some(i) && rows[c].field == Some(
                field,
            ),
            None => forall|c: int|
                0 <= c < rows.len() && #[trigger] parent_of(rows, c) == Some(i) ==> rows[c].field
                    != Some(field),
        },
{
    let children = children_of(rows, i);
    lemma_children(rows, i, rows.len() as int);
    lemma_field_search(rows, children, field, 0);
    if child_by_field(rows, i, field) is None {
        assert forall|c: int|
            0 <= c < rows.len() && #[trigger] parent_of(rows, c) == Some(i) implies rows[c].field
            != Some(field) by {
            lemma_is_child(rows, i, c, rows.len() as int);
            let l = choose|l: int| 0 <= l < children.len() && children[l] == c;
            assert(rows[children[l]].field != Some(field));
        }
    }
}

proof fn lemma_no_children_yet(rows: Seq<RowModel>, i: int, count: int)
    requires
        count <= i + 1,
    ensures
        children_upto(rows, i, count).len() == 0,
    decreases count,
{
    if count > 0 {
        lemma_no_children_yet(rows, i, count - 1);
        lemma_parent_is_earlier(rows, count - 1, count - 2);
    }
}

/// Whether rows list a tree in pre-order.
pub fn rows_list_a_tree(rows: &Vec<SyntaxRow>) -> (r: bool)
    ensures
        r == lists_a_tree(row_views(rows@)),
{
    let ghost models = row_views(rows@);
    if rows.len() == 0 {
        return false;
    }
    assert(models[0] == rows@[0]@);
    if rows[0].depth != 0 {
        assert(!depth_fits(models, 0));
        return false;
    }
    let mut i: usize = 1;
    while i < rows.len()
        invariant
            1 <= i <= rows@.len(),
            models == row_views(rows@),
            forall|k: int| 0 <= k < i ==> #[trigger] depth_fits(models, k),
        decreases rows@.len() - i,
    {
        assert(models[i as int] == rows@[i as int]@);
        assert(models[i - 1] == rows@[i - 1]@);
        if rows[i].depth == 0 || rows[i].depth - 1 > rows[i - 1].depth {
            assert(!depth_fits(models, i as int));
            return false;
        }
        i += 1;
    }
    true
}

fn rows_fit(rows: &Vec<SyntaxRow>, source: &str) -> (r: bool)
    ensures
        r == covers(row_views(rows@), source@),
{
    let ghost models = row_views(rows@);
    let mut i: usize = 0;
    while i < rows.len()
        invariant
            i <= rows@.len(),
            models == row_views(rows@),
            forall|k: int|
                0 <= k < i ==> text::is_text_range(
                    source@,
                    (#[trigger] models[k]).start_byte,
                    models[k].end_byte,
                ),
        decreases rows@.len() - i,
    {
        assert(models[i as int] == rows@[i as int]@);
        if slice_text(source, rows[i].start_byte, rows[i].end_byte).is_none() {
            return false;
        }
        i += 1;
    }
    true
}

} // verus!
