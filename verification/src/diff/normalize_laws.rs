//! What does not count when lines are compared.

use vstd::prelude::*;

use super::normalize;
use super::normalize::{in_quotes, in_substitution, in_template, skeleton, skeleton_from};
use crate::{chars, text};

verus! {

/// What follows in a text does not depend on what stands ahead.
proof fn lemma_skeleton_behind(ahead: Seq<char>, t: Seq<char>, i: int)
    requires
        0 <= i,
    ensures
        skeleton_from(ahead + t, ahead.len() + i) == skeleton_from(t, i),
    decreases t.len() - i, 0nat,
{
    let whole = ahead + t;
    let n = ahead.len() as int;
    if i < t.len() {
        assert(whole[n + i] == t[i]);
        if t[i] == '"' || t[i] == '\'' {
            lemma_quotes_behind(ahead, t, t[i], i + 1);
        } else if t[i] == '`' {
            lemma_template_behind(ahead, t, i + 1);
        } else {
            lemma_skeleton_behind(ahead, t, i + 1);
        }
    }
}

proof fn lemma_quotes_behind(ahead: Seq<char>, t: Seq<char>, quote: char, i: int)
    requires
        0 <= i,
    ensures
        in_quotes(ahead + t, quote, ahead.len() + i) == in_quotes(t, quote, i),
    decreases t.len() - i, 1nat,
{
    let whole = ahead + t;
    let n = ahead.len() as int;
    if i < t.len() {
        assert(whole[n + i] == t[i]);
        if t[i] == '\\' {
            assert(normalize::two_behind(whole, n + i) == n + normalize::two_behind(t, i));
            lemma_quotes_behind(ahead, t, quote, normalize::two_behind(t, i));
        } else if t[i] == quote {
            lemma_skeleton_behind(ahead, t, i + 1);
        } else {
            lemma_quotes_behind(ahead, t, quote, i + 1);
        }
    }
}

proof fn lemma_template_behind(ahead: Seq<char>, t: Seq<char>, i: int)
    requires
        0 <= i,
    ensures
        in_template(ahead + t, ahead.len() + i) == in_template(t, i),
    decreases t.len() - i, 1nat,
{
    let whole = ahead + t;
    let n = ahead.len() as int;
    if i < t.len() {
        assert(whole[n + i] == t[i]);
        if i + 1 < t.len() {
            assert(whole[n + i + 1] == t[i + 1]);
        }
        if t[i] == '\\' {
            assert(normalize::two_behind(whole, n + i) == n + normalize::two_behind(t, i));
            lemma_template_behind(ahead, t, normalize::two_behind(t, i));
        } else if t[i] == '$' && i + 1 < t.len() && t[i + 1] == '{' {
            lemma_substitution_behind(ahead, t, i + 2, 1);
        } else if t[i] == '`' {
            lemma_skeleton_behind(ahead, t, i + 1);
        } else {
            lemma_template_behind(ahead, t, i + 1);
        }
    }
}

proof fn lemma_substitution_behind(ahead: Seq<char>, t: Seq<char>, i: int, depth: nat)
    requires
        0 <= i,
    ensures
        in_substitution(ahead + t, ahead.len() + i, depth) == in_substitution(t, i, depth),
    decreases t.len() - i, 2nat,
{
    let whole = ahead + t;
    let n = ahead.len() as int;
    if i < t.len() {
        assert(whole[n + i] == t[i]);
        if t[i] == '{' {
            lemma_substitution_behind(ahead, t, i + 1, depth + 1);
        } else if t[i] == '}' {
            if depth <= 1 {
                lemma_template_behind(ahead, t, i + 1);
            } else {
                lemma_substitution_behind(ahead, t, i + 1, (depth - 1) as nat);
            }
        } else {
            lemma_substitution_behind(ahead, t, i + 1, depth);
        }
    }
}

/// Whether a text has no quotes of any kind.
pub open spec fn is_unquoted(t: Seq<char>) -> bool {
    forall|i: int|
        0 <= i < t.len() ==> #[trigger] t[i] != '"' && t[i] != '\'' && t[i] != '`'
}

/// Whether a text can stand as it is between two quotes.
pub open spec fn fits_between(t: Seq<char>, quote: char) -> bool {
    forall|i: int| 0 <= i < t.len() ==> #[trigger] t[i] != quote && t[i] != '\\'
}

proof fn lemma_code_stays(t: Seq<char>, rest: Seq<char>, i: int)
    requires
        is_unquoted(t),
        0 <= i <= t.len(),
    ensures
        skeleton_from(t + rest, i) == t.skip(i) + skeleton(rest),
    decreases t.len() - i,
{
    let whole = t + rest;
    if i < t.len() {
        assert(whole[i] == t[i]);
        lemma_code_stays(t, rest, i + 1);
        assert(seq![t[i]] + (t.skip(i + 1) + skeleton(rest)) =~= t.skip(i) + skeleton(rest));
    } else {
        lemma_skeleton_behind(t, rest, 0);
        assert(t.skip(i) + skeleton(rest) =~= skeleton(rest));
    }
}

proof fn lemma_content_goes(
    content: Seq<char>,
    quote: char,
    rest: Seq<char>,
    i: int,
)
    requires
        fits_between(content, quote),
        quote != '\\',
        0 <= i <= content.len(),
    ensures
        in_quotes(content + seq![quote] + rest, quote, i) == seq![quote] + skeleton(rest),
    decreases content.len() - i,
{
    let whole = content + seq![quote] + rest;
    if i < content.len() {
        assert(whole[i] == content[i]);
        lemma_content_goes(content, quote, rest, i + 1);
    } else {
        assert(whole[i] == quote);
        lemma_skeleton_behind(content + seq![quote], rest, 0);
    }
}

/// What a quoted string holds does not count, and all code does: a line keeps
/// everything ahead of the string, its quotes, and what counts of the rest.
pub proof fn law_string_contents_do_not_count(
    before: Seq<char>,
    quote: char,
    content: Seq<char>,
    after: Seq<char>,
)
    requires
        is_unquoted(before),
        quote == '"' || quote == '\'',
        fits_between(content, quote),
    ensures
        skeleton(before + (seq![quote] + (content + seq![quote] + after))) == before + seq![
            quote,
            quote,
        ] + skeleton(after),
        skeleton(before) == before,
{
    let inner = content + seq![quote] + after;
    let string = seq![quote] + inner;
    lemma_code_stays(before, string, 0);
    assert(before.skip(0) =~= before);
    lemma_quotes_behind(seq![quote], inner, quote, 0);
    lemma_content_goes(content, quote, after, 0);
    assert(skeleton(string) == seq![quote] + (seq![quote] + skeleton(after)));
    assert(before + (seq![quote] + (seq![quote] + skeleton(after))) =~= before + seq![
        quote,
        quote,
    ] + skeleton(after));
    lemma_code_stays(before, Seq::empty(), 0);
    assert(before + Seq::<char>::empty() =~= before);
    assert(skeleton(Seq::<char>::empty()) =~= Seq::<char>::empty());
}

/// The characters of the first `count` that are no white space.
pub open spec fn ink_upto(t: Seq<char>, count: int) -> Seq<char>
    decreases count,
{
    if count <= 0 {
        Seq::empty()
    } else if chars::is_space(t[count - 1]) {
        ink_upto(t, count - 1)
    } else {
        ink_upto(t, count - 1).push(t[count - 1])
    }
}

/// The characters of a text that are no white space.
pub open spec fn ink(t: Seq<char>) -> Seq<char> {
    ink_upto(t, t.len() as int)
}

proof fn lemma_ink_of_prefix(t: Seq<char>, c: char, count: int)
    requires
        0 <= count <= t.len(),
    ensures
        ink_upto(t.push(c), count) == ink_upto(t, count),
    decreases count,
{
    if count > 0 {
        lemma_ink_of_prefix(t, c, count - 1);
    }
}

proof fn lemma_collapsed(t: Seq<char>, count: int)
    requires
        0 <= count <= t.len(),
    ensures
        ({
            let short = normalize::collapsed_upto(t, count);
            &&& ink(short) == ink_upto(t, count)
            &&& forall|i: int|
                0 <= i < short.len() && chars::is_space(#[trigger] short[i]) ==> short[i] == ' '
            &&& forall|i: int|
                0 < i < short.len() && chars::is_space(#[trigger] short[i]) ==> !chars::is_space(
                    short[i - 1],
                )
            &&& count > 0 ==> short.len() > 0 && chars::is_space(short.last()) == chars::is_space(
                t[count - 1],
            )
            &&& count == 0 ==> short.len() == 0
        }),
    decreases count,
{
    if count > 0 {
        lemma_collapsed(t, count - 1);
        let before = normalize::collapsed_upto(t, count - 1);
        lemma_ink_of_prefix(before, t[count - 1], before.len() as int);
        lemma_ink_of_prefix(before, ' ', before.len() as int);
    }
}

/// Collapsing white space leaves single spaces, and loses nothing but white
/// space.
pub proof fn law_collapsing_loses_white_space_alone(t: Seq<char>)
    ensures
        ink(normalize::collapsed(t)) == ink(t),
        forall|i: int|
            0 <= i < normalize::collapsed(t).len() && chars::is_space(
                #[trigger] normalize::collapsed(t)[i],
            ) ==> normalize::collapsed(t)[i] == ' ',
        forall|i: int|
            0 < i < normalize::collapsed(t).len() && chars::is_space(
                #[trigger] normalize::collapsed(t)[i],
            ) ==> !chars::is_space(normalize::collapsed(t)[i - 1]),
{
    lemma_collapsed(t, t.len() as int);
}

/// Whether a text is white space alone.
pub open spec fn is_space_alone(t: Seq<char>) -> bool {
    forall|i: int| 0 <= i < t.len() ==> chars::is_space(#[trigger] t[i])
}

proof fn lemma_skip_space(indent: Seq<char>, rest: Seq<char>, i: int)
    requires
        is_space_alone(indent),
        rest.len() > 0,
        !chars::is_space(rest[0]),
        0 <= i <= indent.len(),
    ensures
        text::skip_space(indent + rest, i) == indent.len(),
    decreases indent.len() - i,
{
    let whole = indent + rest;
    if i < indent.len() {
        assert(whole[i] == indent[i]);
        lemma_skip_space(indent, rest, i + 1);
    } else {
        assert(whole[i] == rest[0]);
    }
}

/// The keyword of a declaration does not count: a line that starts with it, at
/// any indentation, compares like the line without it.
pub proof fn law_keywords_do_not_count(indent: Seq<char>, rest: Seq<char>)
    requires
        is_space_alone(indent),
    ensures
        normalize::without_keyword(indent + ("var "@ + rest)) == indent + rest,
        normalize::without_keyword(indent + ("let "@ + rest)) == indent + rest,
        normalize::without_keyword(indent + ("const "@ + rest)) == indent + rest,
{
    reveal_strlit("var ");
    reveal_strlit("let ");
    reveal_strlit("const ");
    lemma_keyword(indent, "var "@, rest);
    lemma_keyword(indent, "let "@, rest);
    lemma_keyword(indent, "const "@, rest);
    assert("var "@[0] == 'v' && "let "@[0] == 'l' && "const "@[0] == 'c');
    let whole = indent + ("const "@ + rest);
    let at = indent.len() as int;
    assert(whole[at] == 'c');
    assert(!normalize::has_at(whole, "var "@, at)) by {
        if normalize::has_at(whole, "var "@, at) {
            assert(whole.subrange(at, at + 4)[0] == 'v');
        }
    }
    assert(!normalize::has_at(whole, "let "@, at)) by {
        if normalize::has_at(whole, "let "@, at) {
            assert(whole.subrange(at, at + 4)[0] == 'l');
        }
    }
}

proof fn lemma_keyword(indent: Seq<char>, word: Seq<char>, rest: Seq<char>)
    requires
        is_space_alone(indent),
        word.len() > 0,
        !chars::is_space(word[0]),
    ensures
        ({
            let whole = indent + (word + rest);
            let at = indent.len() as int;
            &&& text::skip_space(whole, 0) == at
            &&& normalize::has_at(whole, word, at)
            &&& whole.take(at) + whole.skip(at + word.len()) == indent + rest
        }),
{
    let whole = indent + (word + rest);
    let at = indent.len() as int;
    lemma_skip_space(indent, word + rest, 0);
    assert(whole.subrange(at, at + word.len()) =~= word);
    assert(whole.take(at) =~= indent);
    assert(whole.skip(at + word.len()) =~= rest);
}

proof fn lemma_space_start(body: Seq<char>, tail: Seq<char>, end: int)
    requires
        is_space_alone(tail),
        body.len() > 0,
        !chars::is_space(body.last()),
        body.len() <= end <= body.len() + tail.len(),
    ensures
        text::space_start(body + tail, end) == body.len(),
    decreases end,
{
    let whole = body + tail;
    if end > body.len() {
        assert(whole[end - 1] == tail[end - 1 - body.len()]);
        lemma_space_start(body, tail, end - 1);
    } else {
        assert(whole[end - 1] == body.last());
    }
}

/// The comma or semicolon at the end of a line does not count.
pub proof fn law_final_marks_do_not_count(body: Seq<char>, mark: char, tail: Seq<char>)
    requires
        is_space_alone(tail),
        mark == ',' || mark == ';',
    ensures
        normalize::without_mark(body.push(mark) + tail) == body + tail,
{
    let marked = body.push(mark);
    let whole = marked + tail;
    lemma_space_start(marked, tail, whole.len() as int);
    assert(whole[body.len() as int] == mark);
    assert(whole.take(body.len() as int) =~= body);
    assert(whole.skip(marked.len() as int) =~= tail);
}

} // verus!
