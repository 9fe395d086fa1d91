//! Hashes of syntax that do not depend on the names of variables.

use std::collections::hash_map::DefaultHasher;
use std::hash::Hasher;
use vstd::prelude::*;
use vstd::std_specs::hash::*;
use vstd::string::*;
use vstd::utf8::*;

use crate::bytes::{push_all, push_le};
use crate::order::stable_order;
use crate::pretty::end_of_subtree;
use crate::sets::sort_set;
use crate::syntax::SyntaxTree;
use crate::text::same_text;

use crate::syntax::RowModel;
use crate::{bytes, order, pretty, sets, syntax};

verus! {

/// How many minima a signature holds.
pub const MINHASH_LANES: usize = 128;

/// The bytes that a text adds to a hash.
pub open spec fn text_bytes(t: Seq<char>) -> Seq<u8> {
    encode_utf8(t).push(0xff)
}

/// The bytes that numbers add to a hash.
pub open spec fn number_bytes(list: Seq<u64>) -> Seq<u8>
    decreases list.len(),
{
    if list.len() == 0 {
        Seq::empty()
    } else {
        number_bytes(list.drop_last()) + bytes::le_bytes(list.last() as int, 8)
    }
}

/// Whether a node counts by what it spells.
pub open spec fn is_literal(kind: Seq<char>) -> bool {
    kind == "string"@ || kind == "number"@ || kind == "true"@ || kind == "false"@ || kind
        == "null"@ || kind == "undefined"@ || kind == "regex"@ || kind == "string_fragment"@
}

/// Whether the order of the children of a node does not matter.
pub open spec fn is_order_independent(kind: Seq<char>) -> bool {
    kind == "object"@ || kind == "object_pattern"@ || kind == "named_imports"@ || kind
        == "export_clause"@
}

/// Whether a node is punctuation, which does not count.
pub open spec fn is_punctuation(kind: Seq<char>) -> bool {
    kind == ";"@ || kind == ","@ || kind == "("@ || kind == ")"@ || kind == "{"@ || kind == "}"@
        || kind == "["@ || kind == "]"@
}

/// Numbers in ascending order.
pub open spec fn sorted(list: Seq<u64>) -> Seq<u64> {
    order::arranged(list, list)
}

/// What a node is hashed from: its kind, and either what it spells, a mark
/// for a name, or the hashes of its children.
pub open spec fn node_bytes(rows: Seq<RowModel>, source: Seq<char>, i: int) -> Seq<u8>
    decreases rows.len() - i, syntax::children_of(rows, i).len() + 1,
    when 0 <= i < rows.len()
{
    let kind = rows[i].kind;
    text_bytes(kind) + if is_literal(kind) {
        text_bytes(syntax::text_of(rows, source, i))
    } else if kind == "identifier"@ {
        text_bytes("<ID>"@)
    } else {
        let hashes = child_hashes(
            rows,
            source,
            i,
            syntax::children_of(rows, i).len() as int,
        );
        number_bytes(
            if is_order_independent(kind) {
                sorted(hashes)
            } else {
                hashes
            },
        )
    }
}

/// The hashes of the first `count` children of a node, without comments and
/// punctuation.
pub open spec fn child_hashes(
    rows: Seq<RowModel>,
    source: Seq<char>,
    i: int,
    count: int,
) -> Seq<u64>
    decreases rows.len() - i, count,
    when 0 <= i < rows.len() && count <= syntax::children_of(rows, i).len()
    via child_hashes_decreases
{
    if count <= 0 {
        Seq::empty()
    } else {
        let child = syntax::children_of(rows, i)[count - 1];
        let ahead = child_hashes(rows, source, i, count - 1);
        if rows[child].kind == "comment"@ || is_punctuation(rows[child].kind) {
            ahead
        } else {
            ahead.push(DefaultHasher::spec_finish(seq![node_bytes(rows, source, child)]))
        }
    }
}

#[via_fn]
proof fn child_hashes_decreases(rows: Seq<RowModel>, source: Seq<char>, i: int, count: int) {
    if count > 0 {
        syntax::lemma_children(rows, i, rows.len() as int);
        let child = syntax::children_of(rows, i)[count - 1];
        assert(i < child < rows.len());
    }
}

/// The hash of a node.
pub open spec fn node_hash(rows: Seq<RowModel>, source: Seq<char>, i: int) -> u64 {
    DefaultHasher::spec_finish(seq![node_bytes(rows, source, i)])
}

/// The hashes of the nodes from `i` to `end`, without comments.
pub open spec fn visited_hashes(
    rows: Seq<RowModel>,
    source: Seq<char>,
    i: int,
    end: int,
) -> Seq<u64>
    decreases end - i,
{
    if i < 0 || i >= end || i >= rows.len() {
        Seq::empty()
    } else if rows[i].kind == "comment"@ {
        if i < pretty::behind(rows, i) <= end {
            visited_hashes(rows, source, pretty::behind(rows, i), end)
        } else {
            Seq::empty()
        }
    } else {
        seq![node_hash(rows, source, i)] + visited_hashes(rows, source, i + 1, end)
    }
}

/// The hashes of a node and of what is below it, ascending and each once.
pub open spec fn hashes_of(rows: Seq<RowModel>, source: Seq<char>, i: int) -> Seq<u64> {
    sets::sorted_set(
        seq![node_hash(rows, source, i)] + visited_hashes(
            rows,
            source,
            i + 1,
            pretty::behind(rows, i),
        ),
    )
}

/// The hash of a number under a seed.
pub open spec fn seeded(number: u64, seed: int) -> u64 {
    DefaultHasher::spec_finish(
        seq![bytes::le_bytes(number as int, 8), bytes::le_bytes(seed, 8)],
    )
}

/// The smallest hash of the first `count` numbers under a seed.
pub open spec fn smallest_upto(list: Seq<u64>, seed: int, count: int) -> u64
    decreases count,
{
    if count <= 0 {
        u64::MAX
    } else {
        let ahead = smallest_upto(list, seed, count - 1);
        let hash = seeded(list[count - 1], seed);
        if hash < ahead {
            hash
        } else {
            ahead
        }
    }
}

/// The signature of a set of numbers: its smallest hash under each seed.
pub open spec fn minhash_of(list: Seq<u64>) -> Seq<u64> {
    Seq::new(
        MINHASH_LANES as nat,
        |seed: int| smallest_upto(list, seed, list.len() as int),
    )
}

fn literal_kind(kind: &str) -> (r: bool)
    ensures
        r == is_literal(kind@),
{
    same_text(kind, "string") || same_text(kind, "number") || same_text(kind, "true")
        || same_text(kind, "false") || same_text(kind, "null") || same_text(kind, "undefined")
        || same_text(kind, "regex") || same_text(kind, "string_fragment")
}

fn order_independent_kind(kind: &str) -> (r: bool)
    ensures
        r == is_order_independent(kind@),
{
    same_text(kind, "object") || same_text(kind, "object_pattern") || same_text(
        kind,
        "named_imports",
    ) || same_text(kind, "export_clause")
}

fn punctuation_kind(kind: &str) -> (r: bool)
    ensures
        r == is_punctuation(kind@),
{
    same_text(kind, ";") || same_text(kind, ",") || same_text(kind, "(") || same_text(kind, ")")
        || same_text(kind, "{") || same_text(kind, "}") || same_text(kind, "[") || same_text(
        kind,
        "]",
    )
}

fn push_text(output: &mut Vec<u8>, t: &str)
    ensures
        final(output)@ == old(output)@ + text_bytes(t@),
{
    let ghost before = output@;
    push_all(output, t.as_bytes());
    output.push(0xff);
    assert(output@ =~= before + text_bytes(t@));
}

fn push_numbers(output: &mut Vec<u8>, list: &Vec<u64>)
    ensures
        final(output)@ == old(output)@ + number_bytes(list@),
{
    let ghost before = output@;
    let mut i: usize = 0;
    assert(list@.take(0) =~= Seq::empty());
    assert(output@ =~= before + number_bytes(list@.take(0)));
    while i < list.len()
        invariant
            i <= list@.len(),
            output@ == before + number_bytes(list@.take(i as int)),
        decreases list@.len() - i,
    {
        push_le(output, list[i], 8);
        assert(list@.take(i + 1).drop_last() =~= list@.take(i as int));
        assert(output@ =~= before + number_bytes(list@.take(i + 1)));
        i += 1;
    }
    assert(list@.take(i as int) =~= list@);
}

fn sort_numbers(list: &Vec<u64>) -> (r: Vec<u64>)
    ensures
        r@ == sorted(list@),
{
    let places = stable_order(list);
    let length: usize = list.len();
    proof {
        order::lemma_ranks(list@, places@);
    }
    let mut r: Vec<u64> = Vec::new();
    let mut i: usize = 0;
    while i < places.len()
        invariant
            places@.len() == list@.len(),
            forall|k: int|
                0 <= k < places@.len() ==> #[trigger] places@[k] < list@.len() && places@[k]
                    == order::row_at(list@, k),
            i <= places@.len(),
            r@.len() == i,
            forall|k: int| 0 <= k < i ==> #[trigger] r@[k] == list@[order::row_at(list@, k)],
        decreases places@.len() - i,
    {
        r.push(list[places[i]]);
        i += 1;
    }
    assert(r@ =~= sorted(list@));
    r
}

fn hash_bytes(part: &[u8]) -> (hash: u64)
    ensures
        hash == DefaultHasher::spec_finish(seq![part@]),
{
    let mut hasher = DefaultHasher::new();
    hasher.write(part);
    assert(hasher@ =~= seq![part@]);
    hasher.finish()
}

/// The hash of a node, given the hashes of the nodes behind it.
fn hash_node(tree: &SyntaxTree, source: &str, i: usize, table: &Vec<u64>) -> (hash: u64)
    requires
        i < tree@.len(),
        syntax::covers(tree@, source@),
        table@.len() == tree@.len(),
        forall|j: int| i < j < tree@.len() ==> #[trigger] table@[j] == node_hash(tree@, source@, j),
    ensures
        hash == node_hash(tree@, source@, i as int),
{
    let kind = tree.kind(i);
    let mut output: Vec<u8> = Vec::new();
    push_text(&mut output, kind);
    if literal_kind(kind) {
        push_text(&mut output, tree.text(i, source));
        assert(output@ =~= node_bytes(tree@, source@, i as int));
        return hash_bytes(output.as_slice());
    }
    if same_text(kind, "identifier") {
        push_text(&mut output, "<ID>");
        assert(output@ =~= node_bytes(tree@, source@, i as int));
        return hash_bytes(output.as_slice());
    }
    let children = tree.children(i);
    let ghost list = syntax::children_of(tree@, i as int);
    assert(list.len() == children@.len());
    let mut hashes: Vec<u64> = Vec::new();
    let mut k: usize = 0;
    while k < children.len()
        invariant
            i < tree@.len(),
            syntax::covers(tree@, source@),
            table@.len() == tree@.len(),
            forall|j: int|
                i < j < tree@.len() ==> #[trigger] table@[j] == node_hash(tree@, source@, j),
            list == syntax::children_of(tree@, i as int),
            syntax::index_views(children@) == list,
            list.len() == children@.len(),
            forall|j: int| 0 <= j < children@.len() ==> i < #[trigger] children@[j] < tree@.len(),
            k <= children@.len(),
            hashes@ == child_hashes(tree@, source@, i as int, k as int),
        decreases children@.len() - k,
    {
        let child = children[k];
        assert(list[k as int] == child);
        let child_kind = tree.kind(child);
        if !same_text(child_kind, "comment") && !punctuation_kind(child_kind) {
            hashes.push(table[child]);
        }
        k += 1;
    }
    if order_independent_kind(kind) {
        hashes = sort_numbers(&hashes);
    }
    push_numbers(&mut output, &hashes);
    assert(output@ =~= node_bytes(tree@, source@, i as int));
    hash_bytes(output.as_slice())
}

/// The hash of every node.
pub(crate) fn hash_nodes(tree: &SyntaxTree, source: &str) -> (table: Vec<u64>)
    requires
        syntax::covers(tree@, source@),
    ensures
        table@.len() == tree@.len(),
        forall|i: int|
            0 <= i < tree@.len() ==> #[trigger] table@[i] == node_hash(tree@, source@, i),
{
    let count = tree.len();
    let mut table: Vec<u64> = Vec::new();
    while table.len() < count
        invariant
            table@.len() <= count,
        decreases count - table@.len(),
    {
        table.push(0);
    }
    let mut i: usize = count;
    while i > 0
        invariant
            syntax::covers(tree@, source@),
            count == tree@.len(),
            i <= count,
            table@.len() == count,
            forall|j: int|
                i <= j < count ==> #[trigger] table@[j] == node_hash(tree@, source@, j),
        decreases i,
    {
        i -= 1;
        let hash = hash_node(tree, source, i, &table);
        table[i] = hash;
    }
    table
}

/// The hashes of a node and of what is below it, ascending and each once.
pub(crate) fn collect_structural_hashes(
    tree: &SyntaxTree,
    source: &str,
    table: &Vec<u64>,
    node: usize,
) -> (hashes: Vec<u64>)
    requires
        node < tree@.len(),
        syntax::covers(tree@, source@),
        table@.len() == tree@.len(),
        forall|i: int|
            0 <= i < tree@.len() ==> #[trigger] table@[i] == node_hash(tree@, source@, i),
    ensures
        hashes@ == hashes_of(tree@, source@, node as int),
{
    let end = end_of_subtree(tree, node);
    let mut list: Vec<u64> = Vec::new();
    list.push(table[node]);
    let ghost all = seq![node_hash(tree@, source@, node as int)] + visited_hashes(
        tree@,
        source@,
        node + 1,
        end as int,
    );
    let mut i: usize = node + 1;
    assert(all =~= list@ + visited_hashes(tree@, source@, i as int, end as int));
    while i < end
        invariant
            syntax::covers(tree@, source@),
            table@.len() == tree@.len(),
            forall|i: int|
                0 <= i < tree@.len() ==> #[trigger] table@[i] == node_hash(tree@, source@, i),
            node < i <= end <= tree@.len(),
            sets::sorted_set(all) == hashes_of(tree@, source@, node as int),
            all == list@ + visited_hashes(tree@, source@, i as int, end as int),
        decreases end - i,
    {
        let ghost rest = visited_hashes(tree@, source@, i as int, end as int);
        if tree.is_kind(i, "comment") {
            let next = end_of_subtree(tree, i);
            if next > end {
                assert(all =~= list@);
                return sort_set(&list);
            }
            i = next;
        } else {
            let ghost before = list@;
            list.push(table[i]);
            i += 1;
            assert(before + rest =~= list@ + visited_hashes(tree@, source@, i as int, end as int));
        }
    }
    assert(all =~= list@);
    sort_set(&list)
}

fn hash_seeded(number: u64, seed: usize) -> (hash: u64)
    ensures
        hash == seeded(number, seed as int),
{
    let mut first: Vec<u8> = Vec::new();
    push_le(&mut first, number, 8);
    assert(first@ =~= bytes::le_bytes(number as int, 8));
    let mut second: Vec<u8> = Vec::new();
    push_le(&mut second, seed as u64, 8);
    assert(second@ =~= bytes::le_bytes(seed as int, 8));
    let mut hasher = DefaultHasher::new();
    hasher.write(first.as_slice());
    hasher.write(second.as_slice());
    assert(hasher@ =~= seq![
        bytes::le_bytes(number as int, 8),
        bytes::le_bytes(seed as int, 8),
    ]);
    hasher.finish()
}

/// The signature of a set of numbers.
pub fn minhash(hashes: &[u64]) -> (signature: [u64; MINHASH_LANES])
    ensures
        signature@ == minhash_of(hashes@),
{
    let mut signature: [u64; MINHASH_LANES] = [u64::MAX; MINHASH_LANES];
    let mut seed: usize = 0;
    while seed < MINHASH_LANES
        invariant
            seed <= MINHASH_LANES,
            forall|s: int|
                0 <= s < seed ==> #[trigger] signature@[s] == smallest_upto(
                    hashes@,
                    s,
                    hashes@.len() as int,
                ),
        decreases MINHASH_LANES - seed,
    {
        let mut smallest: u64 = u64::MAX;
        let mut i: usize = 0;
        while i < hashes.len()
            invariant
                i <= hashes@.len(),
                smallest == smallest_upto(hashes@, seed as int, i as int),
            decreases hashes@.len() - i,
        {
            let hash = hash_seeded(hashes[i], seed);
            if hash < smallest {
                smallest = hash;
            }
            i += 1;
        }
        signature[seed] = smallest;
        seed += 1;
    }
    assert(signature@ =~= minhash_of(hashes@));
    signature
}

/// Whether two trees differ at most in names, comments apart: every node has
/// the same place and kind, and every literal the same text.
pub open spec fn same_but_for_names(
    rows: Seq<RowModel>,
    source: Seq<char>,
    other_rows: Seq<RowModel>,
    other_source: Seq<char>,
) -> bool {
    &&& rows.len() == other_rows.len()
    &&& forall|i: int|
        0 <= i < rows.len() ==> (#[trigger] rows[i]).depth == other_rows[i].depth
            && rows[i].kind == other_rows[i].kind && (is_literal(rows[i].kind)
            ==> syntax::text_of(rows, source, i) == syntax::text_of(other_rows, other_source, i))
}

proof fn lemma_same_parents(rows: Seq<RowModel>, other_rows: Seq<RowModel>, i: int, from: int)
    requires
        rows.len() == other_rows.len(),
        forall|k: int|
            0 <= k < rows.len() ==> (#[trigger] rows[k]).depth == other_rows[k].depth,
        0 <= i < rows.len(),
        from < rows.len(),
    ensures
        syntax::parent_search(rows, i, from) == syntax::parent_search(other_rows, i, from),
    decreases from + 1,
{
    if from >= 0 {
        assert(rows[from].depth == other_rows[from].depth);
        assert(rows[i].depth == other_rows[i].depth);
        lemma_same_parents(rows, other_rows, i, from - 1);
    }
}

proof fn lemma_same_children(rows: Seq<RowModel>, other_rows: Seq<RowModel>, i: int, count: int)
    requires
        rows.len() == other_rows.len(),
        forall|k: int|
            0 <= k < rows.len() ==> (#[trigger] rows[k]).depth == other_rows[k].depth,
        0 <= i < rows.len(),
        count <= rows.len(),
    ensures
        syntax::children_upto(rows, i, count) == syntax::children_upto(other_rows, i, count),
    decreases count,
{
    if count > 0 {
        lemma_same_parents(rows, other_rows, count - 1, count - 2);
        lemma_same_children(rows, other_rows, i, count - 1);
    }
}

proof fn lemma_same_ends(rows: Seq<RowModel>, other_rows: Seq<RowModel>, i: int, at: int)
    requires
        rows.len() == other_rows.len(),
        forall|k: int|
            0 <= k < rows.len() ==> (#[trigger] rows[k]).depth == other_rows[k].depth,
        0 <= i < rows.len(),
        0 <= at,
    ensures
        crate::parser::subtree_end(rows, i, at) == crate::parser::subtree_end(other_rows, i, at),
    decreases rows.len() - at,
{
    if at < rows.len() {
        assert(rows[at].depth == other_rows[at].depth);
        assert(rows[i].depth == other_rows[i].depth);
        lemma_same_ends(rows, other_rows, i, at + 1);
    }
}

proof fn lemma_same_child_hashes(
    rows: Seq<RowModel>,
    source: Seq<char>,
    other_rows: Seq<RowModel>,
    other_source: Seq<char>,
    i: int,
    count: int,
)
    requires
        same_but_for_names(rows, source, other_rows, other_source),
        0 <= i < rows.len(),
        count <= syntax::children_of(rows, i).len(),
    ensures
        syntax::children_of(rows, i) == syntax::children_of(other_rows, i),
        child_hashes(rows, source, i, count) == child_hashes(other_rows, other_source, i, count),
    decreases rows.len() - i, count,
{
    lemma_same_children(rows, other_rows, i, rows.len() as int);
    if count > 0 {
        syntax::lemma_children(rows, i, rows.len() as int);
        let child = syntax::children_of(rows, i)[count - 1];
        assert(i < child < rows.len());
        lemma_same_child_hashes(rows, source, other_rows, other_source, i, count - 1);
        assert(rows[child].kind == other_rows[child].kind);
        law_names_do_not_change_hashes(rows, source, other_rows, other_source, child);
    }
}

/// The hash of a node does not depend on the names of variables.
pub proof fn law_names_do_not_change_hashes(
    rows: Seq<RowModel>,
    source: Seq<char>,
    other_rows: Seq<RowModel>,
    other_source: Seq<char>,
    i: int,
)
    requires
        same_but_for_names(rows, source, other_rows, other_source),
        0 <= i < rows.len(),
    ensures
        node_hash(rows, source, i) == node_hash(other_rows, other_source, i),
    decreases rows.len() - i, syntax::children_of(rows, i).len() + 1,
{
    assert(rows[i].kind == other_rows[i].kind);
    let count = syntax::children_of(rows, i).len() as int;
    lemma_same_child_hashes(rows, source, other_rows, other_source, i, count);
}

proof fn lemma_same_visited(
    rows: Seq<RowModel>,
    source: Seq<char>,
    other_rows: Seq<RowModel>,
    other_source: Seq<char>,
    i: int,
    end: int,
)
    requires
        same_but_for_names(rows, source, other_rows, other_source),
        0 <= i,
    ensures
        visited_hashes(rows, source, i, end) == visited_hashes(other_rows, other_source, i, end),
    decreases end - i,
{
    if i < end && i < rows.len() {
        assert(rows[i].kind == other_rows[i].kind);
        lemma_same_ends(rows, other_rows, i, i + 1);
        if rows[i].kind == "comment"@ {
            if i < pretty::behind(rows, i) <= end {
                lemma_same_visited(
                    rows,
                    source,
                    other_rows,
                    other_source,
                    pretty::behind(rows, i),
                    end,
                );
            }
        } else {
            law_names_do_not_change_hashes(rows, source, other_rows, other_source, i);
            lemma_same_visited(rows, source, other_rows, other_source, i + 1, end);
        }
    }
}

/// Neither the structural hashes of a node nor their signature depend on the
/// names of variables.
pub proof fn law_names_do_not_change_signatures(
    rows: Seq<RowModel>,
    source: Seq<char>,
    other_rows: Seq<RowModel>,
    other_source: Seq<char>,
    i: int,
)
    requires
        same_but_for_names(rows, source, other_rows, other_source),
        0 <= i < rows.len(),
    ensures
        hashes_of(rows, source, i) == hashes_of(other_rows, other_source, i),
        minhash_of(hashes_of(rows, source, i)) == minhash_of(
            hashes_of(other_rows, other_source, i),
        ),
{
    law_names_do_not_change_hashes(rows, source, other_rows, other_source, i);
    lemma_same_ends(rows, other_rows, i, i + 1);
    lemma_same_visited(rows, source, other_rows, other_source, i + 1, pretty::behind(rows, i));
}

} // verus!
