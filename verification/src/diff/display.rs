//! Differences of two texts for display.

use similar::{ChangeTag, TextDiff};
use vstd::prelude::*;
use vstd::string::*;

use super::StructuralDiff;
use crate::text::split_lines;

use crate::text;

verus! {

/// What a line of a hunk is.
#[derive(Debug, Clone, Copy, PartialEq, Eq, Structural)]
pub enum LineTag {
    Kept,
    Removed,
    Added,
}

/// A line of a hunk, by its places in the two texts.
#[derive(Debug, Clone, Copy)]
pub struct HunkLine {
    pub tag: LineTag,
    pub old_index: Option<usize>,
    pub new_index: Option<usize>,
}

/// A run of differing lines with the lines around it.
#[derive(Debug, Clone)]
pub struct Hunk {
    pub header: String,
    pub lines: Vec<HunkLine>,
}

/// Hunks seen as their headers and lines.
pub open spec fn hunk_views(hunks: Seq<Hunk>) -> Seq<(Seq<char>, Seq<HunkLine>)> {
    hunks.map_values(|hunk: Hunk| (hunk.header@, hunk.lines@))
}

/// The hunks between two lists of lines, with a number of equal lines around.
pub uninterp spec fn hunks_of(left: Seq<Seq<char>>, right: Seq<Seq<char>>, context: int) -> Seq<
    (Seq<char>, Seq<HunkLine>),
>;

/// `similar::TextDiff::from_slices` and the hunks of its unified diff: its
/// default algorithm without a deadline, so that the hunks depend on the lines
/// and the context alone. Lines are numbered in 32 bits there, and twice the
/// context is computed. Which hunks come out is left to the name [`hunks_of`].
#[verifier::external_body]
fn diff_hunks(left: &Vec<String>, right: &Vec<String>, context: usize) -> (hunks: Vec<Hunk>)
    requires
        left@.len() + right@.len() <= u32::MAX,
        2 * context <= usize::MAX,
    ensures
        hunk_views(hunks@) == hunks_of(
            text::views(left@),
            text::views(right@),
            context as int,
        ),
{
    let left: Vec<&str> = left.iter().map(String::as_str).collect();
    let right: Vec<&str> = right.iter().map(String::as_str).collect();
    let diff = TextDiff::from_slices(&left, &right);
    let mut hunks = Vec::new();
    for hunk in diff.unified_diff().context_radius(context).iter_hunks() {
        let lines = hunk.iter_changes().map(|change| HunkLine {
            tag: match change.tag() {
                ChangeTag::Equal => LineTag::Kept,
                ChangeTag::Delete => LineTag::Removed,
                ChangeTag::Insert => LineTag::Added,
            }, old_index: change.old_index(), new_index: change.new_index(),
        });
        hunks.push(Hunk { header: hunk.header().to_string(), lines: lines.collect() });
    }
    hunks
}

/// A line of a list, or an empty one where there is none.
pub open spec fn line_or_empty(lines: Seq<Seq<char>>, at: Option<usize>) -> Seq<char> {
    match at {
        Some(i) => if i < lines.len() {
            lines[i as int]
        } else {
            Seq::empty()
        },
        None => Seq::empty(),
    }
}

/// How a line of a hunk is shown: as it stands in the first text where it was
/// removed, else as it stands in the second.
pub open spec fn shown_line(
    lines1: Seq<Seq<char>>,
    lines2: Seq<Seq<char>>,
    line: HunkLine,
) -> Seq<char> {
    (match line.tag {
        LineTag::Removed => "-"@ + line_or_empty(lines1, line.old_index),
        LineTag::Added => "+"@ + line_or_empty(lines2, line.new_index),
        LineTag::Kept => " "@ + line_or_empty(lines2, line.new_index),
    }) + "\n"@
}

/// The first `count` lines of a hunk as they are shown.
pub open spec fn shown_lines(
    lines1: Seq<Seq<char>>,
    lines2: Seq<Seq<char>>,
    lines: Seq<HunkLine>,
    count: int,
) -> Seq<char>
    decreases count,
{
    if count <= 0 {
        Seq::empty()
    } else {
        shown_lines(lines1, lines2, lines, count - 1) + shown_line(
            lines1,
            lines2,
            lines[count - 1],
        )
    }
}

/// The first `count` hunks as they are shown.
pub open spec fn shown_hunks(
    lines1: Seq<Seq<char>>,
    lines2: Seq<Seq<char>>,
    hunks: Seq<(Seq<char>, Seq<HunkLine>)>,
    count: int,
) -> Seq<char>
    decreases count,
{
    if count <= 0 {
        Seq::empty()
    } else {
        let (header, lines) = hunks[count - 1];
        shown_hunks(lines1, lines2, hunks, count - 1) + header + "\n"@ + shown_lines(
            lines1,
            lines2,
            lines,
            lines.len() as int,
        )
    }
}

/// Hunks as they are shown, with the lines of two texts.
pub open spec fn shown(
    orig1: Seq<char>,
    orig2: Seq<char>,
    hunks: Seq<(Seq<char>, Seq<HunkLine>)>,
) -> Seq<char> {
    shown_hunks(text::lines_of(orig1), text::lines_of(orig2), hunks, hunks.len() as int)
}

fn push_line(output: String, lines: &Vec<String>, at: Option<usize>) -> (r: String)
    ensures
        r@ == output@ + line_or_empty(text::views(lines@), at),
{
    assert(text::views(lines@).len() == lines@.len());
    match at {
        Some(i) => {
            if i < lines.len() {
                return output.concat(lines[i].as_str());
            }
        },
        None => {},
    }
    assert(output@ + Seq::<char>::empty() =~= output@);
    output
}

/// Shows hunks with the lines of two texts.
pub fn show_hunks(orig1: &str, orig2: &str, hunks: &Vec<Hunk>) -> (r: String)
    ensures
        r@ == shown(orig1@, orig2@, hunk_views(hunks@)),
{
    let lines1 = split_lines(orig1);
    let lines2 = split_lines(orig2);
    let ghost first = text::lines_of(orig1@);
    let ghost second = text::lines_of(orig2@);
    let ghost models = hunk_views(hunks@);
    let mut output = String::new();
    let mut h: usize = 0;
    assert(output@ =~= shown_hunks(first, second, models, 0));
    while h < hunks.len()
        invariant
            text::views(lines1@) == first,
            text::views(lines2@) == second,
            models == hunk_views(hunks@),
            h <= hunks@.len(),
            output@ == shown_hunks(first, second, models, h as int),
        decreases hunks@.len() - h,
    {
        let hunk = &hunks[h];
        assert(models[h as int] == (hunk.header@, hunk.lines@));
        output = output.concat(hunk.header.as_str()).concat("\n");
        let ghost head = output@;
        let mut i: usize = 0;
        assert(output@ =~= head + shown_lines(first, second, hunk.lines@, 0));
        while i < hunk.lines.len()
            invariant
                text::views(lines1@) == first,
                text::views(lines2@) == second,
                i <= hunk.lines@.len(),
                output@ == head + shown_lines(first, second, hunk.lines@, i as int),
            decreases hunk.lines@.len() - i,
        {
            let line = hunk.lines[i];
            output =
            match line.tag {
                LineTag::Removed => push_line(output.concat("-"), &lines1, line.old_index),
                LineTag::Added => push_line(output.concat("+"), &lines2, line.new_index),
                LineTag::Kept => push_line(output.concat(" "), &lines2, line.new_index),
            };
            output = output.concat("\n");
            assert(output@ =~= head + shown_lines(first, second, hunk.lines@, i + 1));
            i += 1;
        }
        assert(output@ =~= shown_hunks(first, second, models, h + 1));
        h += 1;
    }
    output
}

impl StructuralDiff {
    /// The differences of two texts that are aligned by other lines: those of
    /// their normalized forms.
    pub fn generate_normalized_display_diff(
        orig1: &str,
        orig2: &str,
        norm1: &Vec<String>,
        norm2: &Vec<String>,
        context_lines: usize,
    ) -> (r: String)
        requires
            norm1@.len() + norm2@.len() <= u32::MAX,
            2 * context_lines <= usize::MAX,
        ensures
            r@ == shown(
                orig1@,
                orig2@,
                hunks_of(text::views(norm1@), text::views(norm2@), context_lines as int),
            ),
    {
        let hunks = diff_hunks(norm1, norm2, context_lines);
        show_hunks(orig1, orig2, &hunks)
    }
}

} // verus!
