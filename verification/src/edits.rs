//! Replacing ranges of a text.

use vstd::prelude::*;
use vstd::string::*;
use vstd::utf8::*;

use crate::order;
use crate::order::{arrange, stable_order, Pair};
use crate::text;
use crate::text::slice_text;

verus! {

/// A byte range of a text, and what stands there instead.
#[derive(Debug)]
pub struct Edit {
    pub start: usize,
    pub end: usize,
    pub text: String,
}

/// The model of an [`Edit`].
pub struct EditModel {
    pub start: int,
    pub end: int,
    pub text: Seq<char>,
}

impl View for Edit {
    type V = EditModel;

    open spec fn view(&self) -> EditModel {
        EditModel { start: self.start as int, end: self.end as int, text: self.text@ }
    }
}

/// Edits seen as their models.
pub open spec fn edit_views(edits: Seq<Edit>) -> Seq<EditModel> {
    edits.map_values(|edit: Edit| edit@)
}

/// Whether every edit replaces a range of a text.
pub open spec fn are_ranges(source: Seq<char>, edits: Seq<EditModel>) -> bool {
    forall|i: int|
        0 <= i < edits.len() ==> text::is_text_range(
            source,
            (#[trigger] edits[i]).start,
            edits[i].end,
        )
}

/// Where the text behind the first `count` edits goes on.
pub open spec fn resume_at(edits: Seq<EditModel>, count: int) -> int {
    if count <= 0 {
        0
    } else {
        edits[count - 1].end
    }
}

/// Whether an edit starts before the one ahead of it ends.
pub open spec fn overlaps(edits: Seq<EditModel>, i: int) -> bool {
    edits[i].start < resume_at(edits, i)
}

/// Whether any edit overlaps the one ahead of it.
pub open spec fn some_overlap(edits: Seq<EditModel>) -> bool {
    exists|i: int| 0 <= i < edits.len() && #[trigger] overlaps(edits, i)
}

/// The text up to the end of the first `count` edits, after the edits.
pub open spec fn spliced_upto(source: Seq<char>, edits: Seq<EditModel>, count: int) -> Seq<char>
    decreases count,
{
    if count <= 0 {
        Seq::empty()
    } else {
        spliced_upto(source, edits, count - 1) + text::text_between(
            source,
            resume_at(edits, count - 1),
            edits[count - 1].start,
        ) + edits[count - 1].text
    }
}

/// A text after edits.
pub open spec fn spliced(source: Seq<char>, edits: Seq<EditModel>) -> Seq<char> {
    spliced_upto(source, edits, edits.len() as int) + text::text_between(
        source,
        resume_at(edits, edits.len() as int),
        encode_utf8(source).len() as int,
    )
}

/// A text after edits, unless edits overlap.
pub(crate) fn splice(source: &str, edits: &Vec<Edit>) -> (r: Option<String>)
    requires
        are_ranges(source@, edit_views(edits@)),
    ensures
        match r {
            Some(output) => !some_overlap(edit_views(edits@)) && output@ == spliced(
                source@,
                edit_views(edits@),
            ),
            None => some_overlap(edit_views(edits@)),
        },
{
    let ghost models = edit_views(edits@);
    let mut output = String::new();
    let mut end: usize = 0;
    let mut i: usize = 0;
    proof {
        text::lemma_ends_are_boundaries(source@);
    }
    while i < edits.len()
        invariant
            models == edit_views(edits@),
            models.len() == edits@.len(),
            are_ranges(source@, models),
            i <= edits@.len(),
            end == resume_at(models, i as int),
            text::is_text_range(source@, 0, end as int),
            output@ == spliced_upto(source@, models, i as int),
            forall|k: int| 0 <= k < i ==> !#[trigger] overlaps(models, k),
        decreases edits@.len() - i,
    {
        let edit = &edits[i];
        assert(models[i as int] == edit@);
        if edit.start < end {
            assert(overlaps(models, i as int));
            return None;
        }
        match slice_text(source, end, edit.start) {
            Some(between) => {
                output = output.concat(between).concat(edit.text.as_str());
            },
            None => {
                assert(false);
            },
        }
        assert(!overlaps(models, i as int));
        end = edit.end;
        i += 1;
    }
    match slice_text(source, end, source.as_bytes().len()) {
        Some(rest) => {
            output = output.concat(rest);
        },
        None => {
            assert(false);
        },
    }
    Some(output)
}

/// What edits are ordered by: where they start, then where they end.
pub open spec fn edit_keys(edits: Seq<EditModel>) -> Seq<Pair<u64, u64>> {
    edits.map_values(|edit: EditModel| Pair(edit.start as u64, edit.end as u64))
}

/// Edits in the order of their ranges.
pub open spec fn by_range(edits: Seq<EditModel>) -> Seq<EditModel> {
    order::arranged(edits, edit_keys(edits))
}

/// Puts edits in the order of their ranges.
pub fn sort_edits(edits: Vec<Edit>) -> (sorted: Vec<Edit>)
    ensures
        edit_views(sorted@) == by_range(edit_views(edits@)),
{
    let ghost models = edit_views(edits@);
    let mut keys: Vec<Pair<u64, u64>> = Vec::new();
    let mut i: usize = 0;
    while i < edits.len()
        invariant
            i <= edits@.len(),
            keys@.len() == i,
            forall|k: int|
                0 <= k < i ==> #[trigger] keys@[k] == Pair(
                    edits@[k].start as u64,
                    edits@[k].end as u64,
                ),
        decreases edits@.len() - i,
    {
        keys.push(Pair(edits[i].start as u64, edits[i].end as u64));
        i += 1;
    }
    let order = stable_order(&keys);
    let length: usize = edits.len();
    proof {
        assert(keys@ =~= edit_keys(models));
        order::lemma_ranks(keys@, order@);
        order::lemma_order_has_no_duplicates(keys@, order@);
    }
    let sorted = arrange(edits, &order);
    assert(edit_views(sorted@) =~= by_range(models));
    sorted
}

/// Ranges stay ranges when edits are put in order.
pub proof fn lemma_sorted_ranges(source: Seq<char>, edits: Seq<EditModel>)
    requires
        are_ranges(source, edits),
    ensures
        are_ranges(source, by_range(edits)),
        by_range(edits).len() == edits.len(),
{
    let keys = edit_keys(edits);
    order::lemma_rank_is_bijective(keys);
    assert(keys.len() == edits.len());
    assert forall|i: int| 0 <= i < edits.len() implies text::is_text_range(
        source,
        (#[trigger] by_range(edits)[i]).start,
        by_range(edits)[i].end,
    ) by {
        let k = order::row_at(keys, i);
        assert(0 <= k < edits.len());
        assert(by_range(edits)[i] == edits[k]);
    }
}

/// Without edits a text stays as it is.
pub proof fn law_no_edits_change_nothing(source: Seq<char>)
    ensures
        spliced(source, Seq::empty()) == source,
{
    text::lemma_whole_text(source);
    assert(spliced(source, Seq::empty()) =~= source);
}

proof fn lemma_kept_upto(source: Seq<char>, edits: Seq<EditModel>, count: int)
    requires
        0 <= count <= edits.len(),
        are_ranges(source, edits),
        !some_overlap(edits),
        forall|i: int|
            0 <= i < edits.len() ==> (#[trigger] edits[i]).text == text::text_between(
                source,
                edits[i].start,
                edits[i].end,
            ),
    ensures
        spliced_upto(source, edits, count) == text::text_between(
            source,
            0,
            resume_at(edits, count),
        ),
        text::is_text_range(source, 0, resume_at(edits, count)),
    decreases count,
{
    text::lemma_ends_are_boundaries(source);
    if count == 0 {
        text::lemma_empty_range(source, 0);
        assert(spliced_upto(source, edits, 0) =~= text::text_between(source, 0, 0));
    } else {
        lemma_kept_upto(source, edits, count - 1);
        let edit = edits[count - 1];
        assert(!overlaps(edits, count - 1));
        assert(text::is_text_range(source, edit.start, edit.end));
        text::lemma_ranges_join(source, 0, resume_at(edits, count - 1), edit.start);
        text::lemma_ranges_join(source, 0, edit.start, edit.end);
    }
}

/// Edits that put what was there change nothing.
pub proof fn law_edits_change_only_their_ranges(source: Seq<char>, edits: Seq<EditModel>)
    requires
        are_ranges(source, edits),
        !some_overlap(edits),
        forall|i: int|
            0 <= i < edits.len() ==> (#[trigger] edits[i]).text == text::text_between(
                source,
                edits[i].start,
                edits[i].end,
            ),
    ensures
        spliced(source, edits) == source,
{
    lemma_kept_upto(source, edits, edits.len() as int);
    text::lemma_ends_are_boundaries(source);
    text::lemma_ranges_join(
        source,
        0,
        resume_at(edits, edits.len() as int),
        encode_utf8(source).len() as int,
    );
    text::lemma_whole_text(source);
}

/// Whether a text reads a part from a place on.
pub open spec fn reads_at(text: Seq<char>, at: int, part: Seq<char>) -> bool {
    0 <= at && at + part.len() <= text.len() && text.subrange(at, at + part.len()) == part
}

/// Whether a text is laid out by edits whose texts start at some places: what
/// stood between the edits stands between them still, and nothing else does.
pub open spec fn is_laid_out(
    source: Seq<char>,
    edits: Seq<EditModel>,
    text: Seq<char>,
    places: Seq<int>,
) -> bool {
    &&& places.len() == edits.len()
    &&& forall|k: int|
        0 <= k < edits.len() ==> {
            let from = if k == 0 {
                0
            } else {
                places[k - 1] + edits[k - 1].text.len()
            };
            let gap = text::text_between(
                source,
                if k == 0 {
                    0
                } else {
                    edits[k - 1].end
                },
                edits[k].start,
            );
            #[trigger] places[k] == from + gap.len() && reads_at(text, from, gap) && reads_at(
                text,
                places[k],
                edits[k].text,
            )
        }
    &&& ({
        let last = edits.len() - 1;
        let from = if last < 0 {
            0
        } else {
            places[last] + edits[last].text.len()
        };
        let gap = text::text_between(
            source,
            if last < 0 {
                0
            } else {
                edits[last].end
            },
            encode_utf8(source).len() as int,
        );
        text.len() == from + gap.len() && reads_at(text, from, gap)
    })
}

/// Where the texts of the edits start.
spec fn places_of(source: Seq<char>, edits: Seq<EditModel>) -> Seq<int> {
    Seq::new(
        edits.len(),
        |k: int| spliced_upto(source, edits, k + 1).len() - edits[k].text.len(),
    )
}

proof fn lemma_reads_on(text: Seq<char>, at: int, part: Seq<char>, more: Seq<char>)
    requires
        reads_at(text, at, part),
    ensures
        reads_at(text + more, at, part),
{
    assert((text + more).subrange(at, at + part.len()) =~= text.subrange(at, at + part.len()));
}

proof fn lemma_reads_behind(text: Seq<char>, part: Seq<char>)
    ensures
        reads_at(text + part, text.len() as int, part),
{
    assert((text + part).subrange(text.len() as int, (text + part).len() as int) =~= part);
}

proof fn lemma_upto_reads_on(source: Seq<char>, edits: Seq<EditModel>, k: int, count: int)
    requires
        0 <= k < count <= edits.len(),
    ensures
        ({
            let text = spliced_upto(source, edits, count);
            let from = spliced_upto(source, edits, k).len() as int;
            let gap = text::text_between(source, resume_at(edits, k), edits[k].start);
            &&& reads_at(text, from, gap)
            &&& reads_at(text, from + gap.len(), edits[k].text)
        }),
    decreases count,
{
    let from = spliced_upto(source, edits, k).len() as int;
    let gap = text::text_between(source, resume_at(edits, k), edits[k].start);
    let before = spliced_upto(source, edits, count - 1);
    let last = text::text_between(source, resume_at(edits, count - 1), edits[count - 1].start);
    if k == count - 1 {
        lemma_reads_behind(before, gap);
        lemma_reads_on(before + gap, from, gap, edits[k].text);
        lemma_reads_behind(before + gap, edits[k].text);
    } else {
        lemma_upto_reads_on(source, edits, k, count - 1);
        lemma_reads_on(before, from, gap, last);
        lemma_reads_on(before + last, from, gap, edits[count - 1].text);
        lemma_reads_on(before, from + gap.len(), edits[k].text, last);
        lemma_reads_on(before + last, from + gap.len(), edits[k].text, edits[count - 1].text);
    }
}

/// After edits that do not overlap, every edit's text stands in the place of
/// its range, in order, and all text outside of the ranges is kept.
pub proof fn law_edits_stand_in_place(source: Seq<char>, edits: Seq<EditModel>)
    ensures
        exists|places: Seq<int>| is_laid_out(source, edits, spliced(source, edits), places),
{
    let places = places_of(source, edits);
    let n = edits.len() as int;
    let body = spliced_upto(source, edits, n);
    let rest = text::text_between(
        source,
        resume_at(edits, n),
        encode_utf8(source).len() as int,
    );
    assert(spliced(source, edits) == body + rest);
    assert forall|k: int| 0 <= k < n implies {
        let from = if k == 0 {
            0
        } else {
            places[k - 1] + edits[k - 1].text.len()
        };
        let gap = text::text_between(source, resume_at(edits, k), edits[k].start);
        #[trigger] places[k] == from + gap.len() && reads_at(body + rest, from, gap) && reads_at(
            body + rest,
            places[k],
            edits[k].text,
        )
    } by {
        let from = spliced_upto(source, edits, k).len() as int;
        let gap = text::text_between(source, resume_at(edits, k), edits[k].start);
        lemma_upto_reads_on(source, edits, k, n);
        lemma_reads_on(body, from, gap, rest);
        lemma_reads_on(body, from + gap.len(), edits[k].text, rest);
        if k > 0 {
            assert(places[k - 1] == spliced_upto(source, edits, k).len() - edits[k - 1].text.len());
        }
    }
    lemma_reads_behind(body, rest);
    if n > 0 {
        assert(places[n - 1] == body.len() - edits[n - 1].text.len());
    }
    assert(is_laid_out(source, edits, spliced(source, edits), places));
}

} // verus!
