//! What a function holds that minifiers keep: strings, constants and calls.

use vstd::hash_map::StringHashMap;
use vstd::prelude::*;
use vstd::string::*;
use vstd::utf8::*;

use super::alpha::quote;
use super::normalize::word_at;
use crate::pretty::end_of_subtree;
use crate::syntax::SyntaxTree;
use crate::text::{
    chars_of, clone_optional, decimal_text, join_texts, same_text, slice_text, slice_chars, string_of,
};

use super::{alpha, normalize};
use crate::syntax::RowModel;
use crate::{chars, pretty, syntax, text};

pub use super::normalize::{
    classify_diff_lines, normalize_for_comparison, normalize_javascript_identifiers,
    normalize_minified_identifiers, normalize_string_with_renames,
};

verus! {

/// What a string seems to be for.
#[derive(Debug, Clone, Copy, PartialEq, Eq, Structural, Hash)]
pub enum StringContext {
    /// Speaks of an error.
    ErrorMessage,
    /// One long word.
    ConfigKey,
    /// A path of a service.
    ApiEndpoint,
    /// A path of a file.
    FilePath,
    /// Words with hyphens.
    CommandName,
    Regular,
}

/// A string of a function.
#[derive(Debug, Clone, PartialEq, Eq, Hash)]
pub struct StringFingerprint {
    pub value: String,
    pub context: StringContext,
}

/// A constant of a function.
#[derive(Debug, Clone, PartialEq, Eq, Hash)]
pub enum ConstantValue {
    Number(i64),
    /// A number with a fraction or an exponent, as it is written.
    Float(String),
    Regex(String),
    /// A number that timers commonly take.
    Duration(u64),
}

/// A constant of a function.
#[derive(Debug, Clone)]
pub struct ConstantFingerprint {
    pub value: ConstantValue,
}

/// A call of a function.
#[derive(Debug, Clone, PartialEq, Eq, Hash)]
pub struct ApiCallFingerprint {
    pub object: Option<String>,
    pub method: String,
    /// The first argument, where it is a literal.
    pub first_arg: Option<String>,
}

/// What a function holds.
#[derive(Debug, Clone)]
pub struct FunctionFingerprint {
    pub strings: Vec<StringFingerprint>,
    pub constants: Vec<ConstantFingerprint>,
    pub api_calls: Vec<ApiCallFingerprint>,
    pub size: usize,
}

/// The model of a [`StringFingerprint`].
pub struct StringModel {
    pub value: Seq<char>,
    pub context: StringContext,
}

/// The model of a [`ConstantValue`].
pub enum ConstantModel {
    Number(i64),
    Float(Seq<char>),
    Regex(Seq<char>),
    Duration(u64),
}

/// The model of an [`ApiCallFingerprint`].
pub struct ApiCallModel {
    pub object: Option<Seq<char>>,
    pub method: Seq<char>,
    pub first_arg: Option<Seq<char>>,
}

/// The model of a [`FunctionFingerprint`].
pub struct FingerprintModel {
    pub strings: Seq<StringModel>,
    pub constants: Seq<ConstantModel>,
    pub api_calls: Seq<ApiCallModel>,
    pub size: int,
}

impl View for StringFingerprint {
    type V = StringModel;

    open spec fn view(&self) -> StringModel {
        StringModel { value: self.value@, context: self.context }
    }
}

impl View for ConstantValue {
    type V = ConstantModel;

    open spec fn view(&self) -> ConstantModel {
        match self {
            ConstantValue::Number(value) => ConstantModel::Number(*value),
            ConstantValue::Float(value) => ConstantModel::Float(value@),
            ConstantValue::Regex(value) => ConstantModel::Regex(value@),
            ConstantValue::Duration(value) => ConstantModel::Duration(*value),
        }
    }
}

impl View for ApiCallFingerprint {
    type V = ApiCallModel;

    open spec fn view(&self) -> ApiCallModel {
        ApiCallModel {
            object: text::optional_view(self.object),
            method: self.method@,
            first_arg: text::optional_view(self.first_arg),
        }
    }
}

/// Strings seen as their models.
pub open spec fn string_views(list: Seq<StringFingerprint>) -> Seq<StringModel> {
    list.map_values(|s: StringFingerprint| s@)
}

/// Constants seen as their models.
pub open spec fn constant_views(list: Seq<ConstantFingerprint>) -> Seq<ConstantModel> {
    list.map_values(|c: ConstantFingerprint| c.value@)
}

/// Calls seen as their models.
pub open spec fn api_views(list: Seq<ApiCallFingerprint>) -> Seq<ApiCallModel> {
    list.map_values(|a: ApiCallFingerprint| a@)
}

impl View for FunctionFingerprint {
    type V = FingerprintModel;

    open spec fn view(&self) -> FingerprintModel {
        FingerprintModel {
            strings: string_views(self.strings@),
            constants: constant_views(self.constants@),
            api_calls: api_views(self.api_calls@),
            size: self.size as int,
        }
    }
}

/// A text from a place on in which a backslash ahead of a character is gone.
pub open spec fn unescaped_from(t: Seq<char>, c: char, i: int) -> Seq<char>
    decreases t.len() - i,
{
    if i < 0 || i >= t.len() {
        Seq::empty()
    } else if t[i] == '\\' && i + 1 < t.len() && t[i + 1] == c {
        seq![c] + unescaped_from(t, c, i + 2)
    } else {
        seq![t[i]] + unescaped_from(t, c, i + 1)
    }
}

/// What a string literal holds: the text between its quotes, without the
/// backslashes ahead of quotes and backslashes.
pub open spec fn string_value(t: Seq<char>) -> Option<Seq<char>> {
    if t.len() >= 2 {
        let inner = t.subrange(1, t.len() - 1);
        Some(
            unescaped_from(
                unescaped_from(unescaped_from(inner, '"', 0), '\'', 0),
                '\\',
                0,
            ),
        )
    } else {
        None
    }
}

/// Whether a word stands anywhere in a text.
pub open spec fn holds(t: Seq<char>, word: Seq<char>) -> bool {
    exists|i: int| 0 <= i <= t.len() && #[trigger] normalize::has_at(t, word, i)
}

/// Whether a text ends with a word.
pub open spec fn ends_with(t: Seq<char>, word: Seq<char>) -> bool {
    normalize::has_at(t, word, t.len() - word.len())
}

/// How often a character stands among the first `count`.
pub open spec fn occurrences(t: Seq<char>, c: char, count: int) -> nat
    decreases count,
{
    if count <= 0 {
        0
    } else {
        occurrences(t, c, count - 1) + if t[count - 1] == c {
            1nat
        } else {
            0
        }
    }
}

/// Whether every character is a letter, a number or a given one.
pub open spec fn is_word_with(t: Seq<char>, mark: char) -> bool {
    forall|i: int|
        0 <= i < t.len() ==> chars::is_letter_or_number(#[trigger] t[i]) || t[i] == mark
}

/// What a string seems to be for.
pub open spec fn context_of(t: Seq<char>) -> StringContext {
    let lower = chars::lowercase_of(t);
    if holds(lower, "error"@) || holds(lower, "fail"@) || holds(lower, "exception"@) || holds(
        lower,
        "invalid"@,
    ) || holds(lower, "unable"@) {
        StringContext::ErrorMessage
    } else if holds(t, "~/"@) || holds(t, "/."@) || holds(t, "\\"@) || ends_with(t, ".js"@)
        || ends_with(t, ".json"@) || ends_with(t, ".md"@) {
        StringContext::FilePath
    } else if t.len() > 0 && t[0] == '/' && (holds(t, "/api"@) || occurrences(
        t,
        '/',
        t.len() as int,
    ) > 1) {
        StringContext::ApiEndpoint
    } else if holds(t, "-"@) && is_word_with(t, '-') {
        StringContext::CommandName
    } else if is_word_with(t, '_') && encode_utf8(t).len() > 5 {
        StringContext::ConfigKey
    } else {
        StringContext::Regular
    }
}

/// Whether a text is white space alone.
pub open spec fn is_blank(t: Seq<char>) -> bool {
    forall|i: int| 0 <= i < t.len() ==> chars::is_space(#[trigger] t[i])
}

/// Whether a character is a decimal digit.
pub open spec fn is_digit(c: char) -> bool {
    '0' <= c <= '9'
}

/// Whether a range holds decimal digits alone.
pub open spec fn are_digits(t: Seq<char>, start: int, end: int) -> bool {
    forall|i: int| start <= i < end ==> is_digit(#[trigger] t[i])
}

/// The number that a range of digits spells.
pub open spec fn digits_value(t: Seq<char>, start: int, end: int) -> int
    decreases end - start,
{
    if end <= start {
        0
    } else {
        digits_value(t, start, end - 1) * 10 + (t[end - 1] as int - '0' as int)
    }
}

/// Whether a text starts with a sign.
pub open spec fn is_signed(t: Seq<char>) -> bool {
    t.len() > 0 && (t[0] == '+' || t[0] == '-')
}

/// Where the digits of a text start.
pub open spec fn unsigned_start(t: Seq<char>) -> int {
    if is_signed(t) {
        1
    } else {
        0
    }
}

/// The 64-bit integer that a text spells: digits behind an optional sign.
pub open spec fn integer_of(t: Seq<char>) -> Option<i64> {
    let start = unsigned_start(t);
    let value = digits_value(t, start, t.len() as int);
    if t.len() == start || !are_digits(t, start, t.len() as int) {
        None
    } else if t[0] == '-' {
        if value <= 0x8000_0000_0000_0000 {
            Some((-value) as i64)
        } else {
            None
        }
    } else if value <= 0x7fff_ffff_ffff_ffff {
        Some(value as i64)
    } else {
        None
    }
}

/// The first place from `i` on that holds no digit, or the end.
pub open spec fn skip_digits(t: Seq<char>, i: int) -> int
    decreases t.len() - i,
{
    if i < 0 || i >= t.len() || !is_digit(t[i]) {
        i
    } else {
        skip_digits(t, i + 1)
    }
}

/// Whether a range from a place to the end is an exponent, or nothing.
pub open spec fn is_exponent(t: Seq<char>, i: int) -> bool {
    if i >= t.len() {
        true
    } else if t[i] != 'e' && t[i] != 'E' {
        false
    } else {
        let first = if i + 1 < t.len() && (t[i + 1] == '+' || t[i + 1] == '-') {
            i + 2
        } else {
            i + 1
        };
        first < t.len() && skip_digits(t, first) == t.len()
    }
}

/// Whether a text spells a decimal number: digits with an optional point among
/// or around them, behind an optional sign and ahead of an optional exponent.
pub open spec fn is_decimal(t: Seq<char>) -> bool {
    let start = unsigned_start(t);
    let whole = skip_digits(t, start);
    if whole < t.len() && t[whole] == '.' {
        let fraction = skip_digits(t, whole + 1);
        (whole > start || fraction > whole + 1) && is_exponent(t, fraction)
    } else {
        whole > start && is_exponent(t, whole)
    }
}

/// What a number counts as, where it counts.
pub open spec fn number_constant(t: Seq<char>) -> Option<ConstantModel> {
    match integer_of(t) {
        Some(n) => if n == 100 || n == 200 || n == 500 || n == 1000 || n == 2000 || n == 5000 {
            Some(ConstantModel::Duration(n as u64))
        } else if n < -100 || n > 100 {
            Some(ConstantModel::Number(n))
        } else {
            None
        },
        None => if is_decimal(t) {
            Some(ConstantModel::Float(t))
        } else {
            None
        },
    }
}

/// The parts of a member path, from the outermost object in.
pub open spec fn member_path(rows: Seq<RowModel>, source: Seq<char>, i: int) -> Seq<Seq<char>>
    decreases rows.len() - i,
    when 0 <= i < rows.len()
    via member_path_decreases
{
    if rows[i].kind == "member_expression"@ {
        let base = match syntax::child_by_field(rows, i, "object"@) {
            Some(object) => member_path(rows, source, object),
            None => Seq::empty(),
        };
        match syntax::child_by_field(rows, i, "property"@) {
            Some(property) => base.push(syntax::text_of(rows, source, property)),
            None => base,
        }
    } else {
        seq![syntax::text_of(rows, source, i)]
    }
}

#[via_fn]
proof fn member_path_decreases(rows: Seq<RowModel>, source: Seq<char>, i: int) {
    lemma_field_child(rows, i, "object"@);
}

pub proof fn lemma_field_child(rows: Seq<RowModel>, i: int, field: Seq<char>)
    ensures
        syntax::child_by_field(rows, i, field) matches Some(c) ==> i < c < rows.len(),
{
    syntax::lemma_children(rows, i, rows.len() as int);
    lemma_field_search(rows, syntax::children_of(rows, i), field, 0);
}

proof fn lemma_field_search(rows: Seq<RowModel>, children: Seq<int>, field: Seq<char>, k: int)
    requires
        0 <= k,
    ensures
        syntax::field_search(rows, children, field, k) matches Some(c) ==> exists|j: int|
            0 <= j < children.len() && #[trigger] children[j] == c,
    decreases children.len() - k,
{
    if k < children.len() && rows[children[k]].field != Some(field) {
        lemma_field_search(rows, children, field, k + 1);
    }
}

/// The object and the method that a call names.
pub open spec fn callee(rows: Seq<RowModel>, source: Seq<char>, i: int) -> Option<
    (Option<Seq<char>>, Seq<char>),
> {
    match syntax::child_by_field(rows, i, "function"@) {
        None => None,
        Some(f) => if rows[f].kind == "member_expression"@ {
            match (
                syntax::child_by_field(rows, f, "object"@),
                syntax::child_by_field(rows, f, "property"@),
            ) {
                (Some(object), Some(property)) => Some(
                    (
                        Some(text::joined(member_path(rows, source, object), "."@)),
                        syntax::text_of(rows, source, property),
                    ),
                ),
                _ => None,
            }
        } else if rows[f].kind == "identifier"@ {
            Some((None, syntax::text_of(rows, source, f)))
        } else {
            None
        },
    }
}

/// The first argument among children from `k` on, where it is a literal.
pub open spec fn literal_argument(
    rows: Seq<RowModel>,
    source: Seq<char>,
    children: Seq<int>,
    k: int,
) -> Option<Seq<char>>
    decreases children.len() - k,
{
    if k < 0 || k >= children.len() {
        None
    } else {
        let kind = rows[children[k]].kind;
        let spelling = syntax::text_of(rows, source, children[k]);
        if kind == "string"@ {
            string_value(spelling)
        } else if kind == "number"@ {
            Some(spelling)
        } else if kind == ","@ || kind == "("@ || kind == ")"@ {
            literal_argument(rows, source, children, k + 1)
        } else {
            None
        }
    }
}

/// The first argument of a call, where it is a literal.
pub open spec fn first_argument(rows: Seq<RowModel>, source: Seq<char>, i: int) -> Option<
    Seq<char>,
> {
    match syntax::child_by_field(rows, i, "arguments"@) {
        Some(arguments) => literal_argument(
            rows,
            source,
            syntax::children_of(rows, arguments),
            0,
        ),
        None => None,
    }
}

/// What a call counts as, where its method's name is long enough to count.
pub open spec fn api_call(rows: Seq<RowModel>, source: Seq<char>, i: int) -> Option<ApiCallModel> {
    match callee(rows, source, i) {
        Some((object, method)) => if encode_utf8(method).len() <= 2 && method != "fs"@ && method
            != "os"@ {
            None
        } else {
            Some(ApiCallModel { object, method, first_arg: first_argument(rows, source, i) })
        },
        None => None,
    }
}

/// The text of a range, where the range splits no character.
pub open spec fn part_between(source: Seq<char>, start: int, end: int) -> Seq<char> {
    if text::is_text_range(source, start, end) {
        text::text_between(source, start, end)
    } else {
        Seq::empty()
    }
}

/// The text of a template up to one of its first `count` children, with every
/// substitution emptied, and where the text behind it starts.
pub open spec fn emptied_upto(
    rows: Seq<RowModel>,
    source: Seq<char>,
    i: int,
    count: int,
) -> (Seq<char>, int)
    decreases count,
{
    if count <= 0 {
        (Seq::empty(), rows[i].start_byte)
    } else {
        let (ahead, at) = emptied_upto(rows, source, i, count - 1);
        let child = syntax::children_of(rows, i)[count - 1];
        if rows[child].kind == "template_substitution"@ {
            (
                ahead + part_between(source, at, rows[child].start_byte) + "${}"@,
                rows[child].end_byte,
            )
        } else {
            (ahead, at)
        }
    }
}

/// The text of a literal. What a template substitutes does not belong to it.
pub open spec fn literal_text(rows: Seq<RowModel>, source: Seq<char>, i: int) -> Seq<char> {
    if rows[i].kind == "template_string"@ {
        let (ahead, at) = emptied_upto(
            rows,
            source,
            i,
            syntax::children_of(rows, i).len() as int,
        );
        ahead + part_between(source, at, rows[i].end_byte)
    } else {
        syntax::text_of(rows, source, i)
    }
}

/// What a node adds to a fingerprint.
pub open spec fn with_node(
    f: FingerprintModel,
    rows: Seq<RowModel>,
    source: Seq<char>,
    i: int,
) -> FingerprintModel {
    let kind = rows[i].kind;
    let spelling = syntax::text_of(rows, source, i);
    let counted = FingerprintModel { size: f.size + 1, ..f };
    if kind == "string"@ || kind == "template_string"@ {
        match string_value(literal_text(rows, source, i)) {
            Some(value) => if encode_utf8(value).len() > 2 && !is_blank(value) {
                FingerprintModel {
                    strings: f.strings.push(StringModel { value, context: context_of(value) }),
                    ..counted
                }
            } else {
                counted
            },
            None => counted,
        }
    } else if kind == "number"@ {
        match number_constant(spelling) {
            Some(value) => FingerprintModel { constants: f.constants.push(value), ..counted },
            None => counted,
        }
    } else if kind == "regex"@ {
        FingerprintModel {
            constants: f.constants.push(ConstantModel::Regex(spelling)),
            ..counted
        }
    } else if kind == "call_expression"@ {
        match api_call(rows, source, i) {
            Some(call) => FingerprintModel { api_calls: f.api_calls.push(call), ..counted },
            None => counted,
        }
    } else {
        counted
    }
}

/// A fingerprint after the nodes from `i` to `end`, comments left out.
pub open spec fn with_nodes(
    f: FingerprintModel,
    rows: Seq<RowModel>,
    source: Seq<char>,
    i: int,
    end: int,
) -> FingerprintModel
    decreases end - i,
{
    if i < 0 || i >= end || i >= rows.len() {
        f
    } else if rows[i].kind == "comment"@ {
        if i < pretty::behind(rows, i) <= end {
            with_nodes(f, rows, source, pretty::behind(rows, i), end)
        } else {
            f
        }
    } else {
        with_nodes(with_node(f, rows, source, i), rows, source, i + 1, end)
    }
}

/// Nothing held.
pub open spec fn no_fingerprint() -> FingerprintModel {
    FingerprintModel {
        strings: Seq::empty(),
        constants: Seq::empty(),
        api_calls: Seq::empty(),
        size: 0,
    }
}

/// What a node holds.
pub open spec fn fingerprint_of(rows: Seq<RowModel>, source: Seq<char>, i: int) -> FingerprintModel {
    with_nodes(
        with_node(no_fingerprint(), rows, source, i),
        rows,
        source,
        i + 1,
        pretty::behind(rows, i),
    )
}

fn unescape(t: &Vec<char>, c: char) -> (r: Vec<char>)
    ensures
        r@ == unescaped_from(t@, c, 0),
{
    let mut r: Vec<char> = Vec::new();
    let mut i: usize = 0;
    let ghost whole = unescaped_from(t@, c, 0);
    assert(r@ + whole =~= whole);
    while i < t.len()
        invariant
            i <= t@.len(),
            whole == r@ + unescaped_from(t@, c, i as int),
        decreases t@.len() - i,
    {
        let ghost before = r@;
        let ghost rest = unescaped_from(t@, c, i as int);
        if t[i] == '\\' && t.len() - i >= 2 && t[i + 1] == c {
            r.push(c);
            i += 2;
        } else {
            r.push(t[i]);
            i += 1;
        }
        assert(before + rest =~= r@ + unescaped_from(t@, c, i as int));
    }
    assert(whole =~= r@);
    r
}

fn extract_string_value(t: &str) -> (r: Option<String>)
    ensures
        text::optional_view(r) == string_value(t@),
{
    let characters = chars_of(t);
    if characters.len() < 2 {
        return None;
    }
    let inner = slice_chars(&characters, 1, characters.len() - 1);
    let plain = unescape(&unescape(&unescape(&inner, '"'), '\''), '\\');
    Some(string_of(&plain))
}

fn contains(t: &Vec<char>, word: &str) -> (r: bool)
    ensures
        r == holds(t@, word@),
{
    let mut i: usize = 0;
    loop
        invariant
            i <= t@.len(),
            forall|k: int| 0 <= k < i ==> !#[trigger] normalize::has_at(t@, word@, k),
        decreases t@.len() - i,
    {
        if word_at(t, word, i) {
            return true;
        }
        if i == t.len() {
            return false;
        }
        i += 1;
    }
}

fn has_end(t: &Vec<char>, word: &str) -> (r: bool)
    ensures
        r == ends_with(t@, word@),
{
    let length: usize = chars_of(word).len();
    if length > t.len() {
        return false;
    }
    word_at(t, word, t.len() - length)
}

fn all_word(t: &Vec<char>, mark: char) -> (r: bool)
    ensures
        r == is_word_with(t@, mark),
{
    let mut i: usize = 0;
    while i < t.len()
        invariant
            i <= t@.len(),
            forall|k: int|
                0 <= k < i ==> chars::is_letter_or_number(#[trigger] t@[k]) || t@[k] == mark,
        decreases t@.len() - i,
    {
        if !t[i].is_alphanumeric() && t[i] != mark {
            return false;
        }
        i += 1;
    }
    true
}

fn count_char(t: &Vec<char>, c: char) -> (count: usize)
    ensures
        count == occurrences(t@, c, t@.len() as int),
{
    let mut count: usize = 0;
    let mut i: usize = 0;
    while i < t.len()
        invariant
            i <= t@.len(),
            count <= i,
            count == occurrences(t@, c, i as int),
        decreases t@.len() - i,
    {
        if t[i] == c {
            count += 1;
        }
        i += 1;
    }
    count
}

fn classify_string(s: &str) -> (context: StringContext)
    ensures
        context == context_of(s@),
{
    let lower = chars_of(s.to_lowercase().as_str());
    let t = chars_of(s);
    if contains(&lower, "error") || contains(&lower, "fail") || contains(&lower, "exception")
        || contains(&lower, "invalid") || contains(&lower, "unable") {
        return StringContext::ErrorMessage;
    }
    if contains(&t, "~/") || contains(&t, "/.") || contains(&t, "\\") || has_end(&t, ".js")
        || has_end(&t, ".json") || has_end(&t, ".md") {
        return StringContext::FilePath;
    }
    if t.len() > 0 && t[0] == '/' && (contains(&t, "/api") || count_char(&t, '/') > 1) {
        return StringContext::ApiEndpoint;
    }
    if contains(&t, "-") && all_word(&t, '-') {
        return StringContext::CommandName;
    }
    if all_word(&t, '_') && s.as_bytes().len() > 5 {
        return StringContext::ConfigKey;
    }
    StringContext::Regular
}

fn blank(t: &Vec<char>) -> (r: bool)
    ensures
        r == is_blank(t@),
{
    let mut i: usize = 0;
    while i < t.len()
        invariant
            i <= t@.len(),
            forall|k: int| 0 <= k < i ==> chars::is_space(#[trigger] t@[k]),
        decreases t@.len() - i,
    {
        if !t[i].is_whitespace() {
            return false;
        }
        i += 1;
    }
    true
}

proof fn lemma_digits_grow(t: Seq<char>, start: int, shorter: int, longer: int)
    requires
        start <= shorter <= longer <= t.len(),
        0 <= start,
        are_digits(t, start, longer),
    ensures
        0 <= digits_value(t, start, shorter) <= digits_value(t, start, longer),
    decreases longer,
{
    if start < longer {
        assert(is_digit(t[longer - 1]));
        lemma_digits_grow(
            t,
            start,
            if shorter < longer {
                shorter
            } else {
                longer - 1
            },
            longer - 1,
        );
    }
}

/// The number that digits spell, where it is at most 2^63.
fn read_digits(t: &Vec<char>, start: usize) -> (r: Option<u64>)
    requires
        start <= t@.len(),
    ensures
        match r {
            Some(value) => are_digits(t@, start as int, t@.len() as int) && value == digits_value(
                t@,
                start as int,
                t@.len() as int,
            ) && value <= 0x8000_0000_0000_0000,
            None => !are_digits(t@, start as int, t@.len() as int) || digits_value(
                t@,
                start as int,
                t@.len() as int,
            ) > 0x8000_0000_0000_0000,
        },
{
    let mut value: u64 = 0;
    let mut i: usize = start;
    while i < t.len()
        invariant
            start <= i <= t@.len(),
            are_digits(t@, start as int, i as int),
            value == digits_value(t@, start as int, i as int),
            value <= 0x8000_0000_0000_0000,
        decreases t@.len() - i,
    {
        let c = t[i];
        if !('0' <= c && c <= '9') {
            assert(!is_digit(t@[i as int]));
            return None;
        }
        let digit: u64 = c as u64 - '0' as u64;
        if value > (0x8000_0000_0000_0000u64 - digit) / 10 {
            proof {
                if are_digits(t@, start as int, t@.len() as int) {
                    lemma_digits_grow(t@, start as int, i + 1, t@.len() as int);
                }
            }
            return None;
        }
        value = value * 10 + digit;
        i += 1;
    }
    Some(value)
}

fn parse_integer(t: &Vec<char>) -> (r: Option<i64>)
    ensures
        r == integer_of(t@),
{
    let start: usize = if t.len() > 0 && (t[0] == '+' || t[0] == '-') {
        1
    } else {
        0
    };
    if t.len() == start {
        return None;
    }
    match read_digits(t, start) {
        None => {
            proof {
                if are_digits(t@, start as int, t@.len() as int) {
                    lemma_digits_grow(t@, start as int, start as int, t@.len() as int);
                }
            }
            None
        },
        Some(value) => {
            if t[0] == '-' {
                if value == 0x8000_0000_0000_0000 {
                    Some(i64::MIN)
                } else {
                    Some(-(value as i64))
                }
            } else if value <= 0x7fff_ffff_ffff_ffff {
                Some(value as i64)
            } else {
                None
            }
        },
    }
}

fn digits_end(t: &Vec<char>, start: usize) -> (end: usize)
    requires
        start <= t@.len(),
    ensures
        end == skip_digits(t@, start as int),
        start <= end <= t@.len(),
{
    let mut i: usize = start;
    while i < t.len() && '0' <= t[i] && t[i] <= '9'
        invariant
            start <= i <= t@.len(),
            skip_digits(t@, start as int) == skip_digits(t@, i as int),
        decreases t@.len() - i,
    {
        i += 1;
    }
    i
}

fn exponent_at(t: &Vec<char>, i: usize) -> (r: bool)
    requires
        i <= t@.len(),
    ensures
        r == is_exponent(t@, i as int),
{
    let total: usize = t.len();
    if i >= total {
        return true;
    }
    if t[i] != 'e' && t[i] != 'E' {
        return false;
    }
    let first: usize = if i + 1 < total && (t[i + 1] == '+' || t[i + 1] == '-') {
        i + 2
    } else {
        i + 1
    };
    first < total && digits_end(t, first) == total
}

fn spells_decimal(t: &Vec<char>) -> (r: bool)
    ensures
        r == is_decimal(t@),
{
    let start: usize = if t.len() > 0 && (t[0] == '+' || t[0] == '-') {
        1
    } else {
        0
    };
    let whole = digits_end(t, start);
    if whole < t.len() && t[whole] == '.' {
        let fraction = digits_end(t, whole + 1);
        (whole > start || fraction > whole + 1) && exponent_at(t, fraction)
    } else {
        whole > start && exponent_at(t, whole)
    }
}

fn constant_for_number(spelling: &str) -> (r: Option<ConstantValue>)
    ensures
        match (r, number_constant(spelling@)) {
            (Some(found), Some(wanted)) => found@ == wanted,
            (None, None) => true,
            _ => false,
        },
{
    let t = chars_of(spelling);
    match parse_integer(&t) {
        Some(n) => {
            if n == 100 || n == 200 || n == 500 || n == 1000 || n == 2000 || n == 5000 {
                Some(ConstantValue::Duration(n as u64))
            } else if n < -100 || n > 100 {
                Some(ConstantValue::Number(n))
            } else {
                None
            }
        },
        None => if spells_decimal(&t) {
            Some(ConstantValue::Float(spelling.to_string()))
        } else {
            None
        },
    }
}

fn get_full_member_path(tree: &SyntaxTree, source: &str, i: usize) -> (parts: Vec<String>)
    requires
        i < tree@.len(),
        syntax::covers(tree@, source@),
    ensures
        text::views(parts@) == member_path(tree@, source@, i as int),
    decreases tree@.len() - i,
{
    if !tree.is_kind(i, "member_expression") {
        let mut parts: Vec<String> = Vec::new();
        parts.push(tree.text(i, source).to_string());
        assert(text::views(parts@) =~= member_path(tree@, source@, i as int));
        return parts;
    }
    let mut parts = match tree.child_by_field_name(i, "object") {
        Some(object) => get_full_member_path(tree, source, object),
        None => {
            let none: Vec<String> = Vec::new();
            assert(text::views(none@) =~= Seq::empty());
            none
        },
    };
    if let Some(property) = tree.child_by_field_name(i, "property") {
        let ghost before = parts@;
        parts.push(tree.text(property, source).to_string());
        assert(text::views(parts@) =~= text::views(before).push(
            syntax::text_of(tree@, source@, property as int),
        ));
    }
    parts
}

/// Whether a pair holds the object and the method of a call.
spec fn is_callee(
    r: Option<(Option<String>, String)>,
    wanted: Option<(Option<Seq<char>>, Seq<char>)>,
) -> bool {
    match (r, wanted) {
        (Some((object, method)), Some(pair)) => text::optional_view(object) == pair.0 && method@
            == pair.1,
        (None, None) => true,
        _ => false,
    }
}

fn find_callee(tree: &SyntaxTree, source: &str, i: usize) -> (r: Option<(Option<String>, String)>)
    requires
        i < tree@.len(),
        syntax::covers(tree@, source@),
    ensures
        is_callee(r, callee(tree@, source@, i as int)),
{
    match tree.child_by_field_name(i, "function") {
        None => None,
        Some(f) => {
            if tree.is_kind(f, "member_expression") {
                match (
                    tree.child_by_field_name(f, "object"),
                    tree.child_by_field_name(f, "property"),
                ) {
                    (Some(object), Some(property)) => {
                        let parts = get_full_member_path(tree, source, object);
                        Some(
                            (
                                Some(join_texts(&parts, ".")),
                                tree.text(property, source).to_string(),
                            ),
                        )
                    },
                    _ => None,
                }
            } else if tree.is_kind(f, "identifier") {
                Some((None, tree.text(f, source).to_string()))
            } else {
                None
            }
        },
    }
}

fn find_first_argument(tree: &SyntaxTree, source: &str, i: usize) -> (r: Option<String>)
    requires
        i < tree@.len(),
        syntax::covers(tree@, source@),
    ensures
        text::optional_view(r) == first_argument(tree@, source@, i as int),
{
    let arguments = match tree.child_by_field_name(i, "arguments") {
        Some(arguments) => arguments,
        None => {
            return None;
        },
    };
    let children = tree.children(arguments);
    let ghost list = syntax::children_of(tree@, arguments as int);
    assert(list.len() == children@.len());
    let mut k: usize = 0;
    while k < children.len()
        invariant
            syntax::covers(tree@, source@),
            i < tree@.len(),
            list == syntax::index_views(children@),
            list.len() == children@.len(),
            forall|j: int| 0 <= j < children@.len() ==> #[trigger] children@[j] < tree@.len(),
            k <= children@.len(),
            first_argument(tree@, source@, i as int) == literal_argument(
                tree@,
                source@,
                list,
                k as int,
            ),
        decreases children@.len() - k,
    {
        let c = children[k];
        assert(list[k as int] == c);
        let kind = tree.kind(c);
        if same_text(kind, "string") {
            return extract_string_value(tree.text(c, source));
        }
        if same_text(kind, "number") {
            return Some(tree.text(c, source).to_string());
        }
        if !same_text(kind, ",") && !same_text(kind, "(") && !same_text(kind, ")") {
            return None;
        }
        k += 1;
    }
    None
}

fn extract_api_call(tree: &SyntaxTree, source: &str, i: usize) -> (r: Option<ApiCallFingerprint>)
    requires
        i < tree@.len(),
        syntax::covers(tree@, source@),
    ensures
        match (r, api_call(tree@, source@, i as int)) {
            (Some(found), Some(wanted)) => found@ == wanted,
            (None, None) => true,
            _ => false,
        },
{
    match find_callee(tree, source, i) {
        None => None,
        Some((object, method)) => {
            if method.as_str().as_bytes().len() <= 2 && !same_text(method.as_str(), "fs")
                && !same_text(method.as_str(), "os") {
                return None;
            }
            Some(
                ApiCallFingerprint {
                    object,
                    method,
                    first_arg: find_first_argument(tree, source, i),
                },
            )
        },
    }
}

fn take_part(source: &str, start: usize, end: usize) -> (part: String)
    ensures
        part@ == part_between(source@, start as int, end as int),
{
    match slice_text(source, start, end) {
        Some(part) => part.to_string(),
        None => String::new(),
    }
}

fn spell_literal(tree: &SyntaxTree, source: &str, i: usize) -> (literal: String)
    requires
        i < tree@.len(),
        syntax::covers(tree@, source@),
    ensures
        literal@ == literal_text(tree@, source@, i as int),
{
    if !tree.is_kind(i, "template_string") {
        return tree.text(i, source).to_string();
    }
    let row = tree.row(i);
    let children = tree.children(i);
    let ghost all = syntax::children_of(tree@, i as int);
    assert(all.len() == children@.len());
    let mut literal = String::new();
    let mut at: usize = row.start_byte;
    let mut k: usize = 0;
    assert(literal@ =~= Seq::empty());
    while k < children.len()
        invariant
            i < tree@.len(),
            all == syntax::children_of(tree@, i as int),
            all == syntax::index_views(children@),
            all.len() == children@.len(),
            forall|j: int| 0 <= j < children@.len() ==> #[trigger] children@[j] < tree@.len(),
            k <= children@.len(),
            (literal@, at as int) == emptied_upto(tree@, source@, i as int, k as int),
        decreases children@.len() - k,
    {
        let c = children[k];
        assert(all[k as int] == c as int);
        if tree.is_kind(c, "template_substitution") {
            let child = tree.row(c);
            literal = literal.concat(take_part(source, at, child.start_byte).as_str()).concat(
                "${}",
            );
            at = child.end_byte;
        }
        k += 1;
    }
    literal.concat(take_part(source, at, row.end_byte).as_str())
}

fn add_node(fingerprint: &mut FunctionFingerprint, tree: &SyntaxTree, source: &str, i: usize)
    requires
        i < tree@.len(),
        syntax::covers(tree@, source@),
        old(fingerprint).size < usize::MAX,
    ensures
        final(fingerprint)@ == with_node(old(fingerprint)@, tree@, source@, i as int),
{
    let ghost before = fingerprint@;
    let kind = tree.kind(i);
    let spelling = tree.text(i, source);
    fingerprint.size = fingerprint.size + 1;
    if same_text(kind, "string") || same_text(kind, "template_string") {
        let literal = spell_literal(tree, source, i);
        if let Some(value) = extract_string_value(literal.as_str()) {
            if value.as_str().as_bytes().len() > 2 && !blank(&chars_of(value.as_str())) {
                let context = classify_string(value.as_str());
                let ghost list = fingerprint.strings@;
                let entry = StringFingerprint { value, context };
                fingerprint.strings.push(entry);
                assert(string_views(fingerprint.strings@) =~= string_views(list).push(entry@));
            }
        }
    } else if same_text(kind, "number") {
        if let Some(value) = constant_for_number(spelling) {
            let ghost list = fingerprint.constants@;
            let entry = ConstantFingerprint { value };
            fingerprint.constants.push(entry);
            assert(constant_views(fingerprint.constants@) =~= constant_views(list).push(
                entry.value@,
            ));
        }
    } else if same_text(kind, "regex") {
        let ghost list = fingerprint.constants@;
        let entry = ConstantFingerprint { value: ConstantValue::Regex(spelling.to_string()) };
        fingerprint.constants.push(entry);
        assert(constant_views(fingerprint.constants@) =~= constant_views(list).push(
            entry.value@,
        ));
    } else if same_text(kind, "call_expression") {
        if let Some(call) = extract_api_call(tree, source, i) {
            let ghost list = fingerprint.api_calls@;
            fingerprint.api_calls.push(call);
            assert(api_views(fingerprint.api_calls@) =~= api_views(list).push(call@));
        }
    }
}

/// Finds what functions of a text hold.
pub struct FingerprintExtractor<'a> {
    pub source: &'a str,
}

impl<'a> FingerprintExtractor<'a> {
    pub fn new(source: &'a str) -> (extractor: Self)
        ensures
            extractor.source@ == source@,
    {
        FingerprintExtractor { source }
    }

    /// What a node holds.
    pub fn extract_function_fingerprint(&self, tree: &SyntaxTree, node: usize) -> (fingerprint:
        FunctionFingerprint)
        requires
            node < tree@.len(),
            syntax::covers(tree@, self.source@),
        ensures
            fingerprint@ == fingerprint_of(tree@, self.source@, node as int),
    {
        let strings: Vec<StringFingerprint> = Vec::new();
        let constants: Vec<ConstantFingerprint> = Vec::new();
        let api_calls: Vec<ApiCallFingerprint> = Vec::new();
        let mut fingerprint = FunctionFingerprint { strings, constants, api_calls, size: 0 };
        assert(string_views(fingerprint.strings@) =~= Seq::empty());
        assert(constant_views(fingerprint.constants@) =~= Seq::empty());
        assert(api_views(fingerprint.api_calls@) =~= Seq::empty());
        let end = end_of_subtree(tree, node);
        add_node(&mut fingerprint, tree, self.source, node);
        let ghost wanted = fingerprint_of(tree@, self.source@, node as int);
        let mut i: usize = node + 1;
        while i < end
            invariant
                syntax::covers(tree@, self.source@),
                node < i <= end <= tree@.len(),
                fingerprint.size <= i - node,
                wanted == fingerprint_of(tree@, self.source@, node as int),
                wanted == with_nodes(
                    fingerprint@,
                    tree@,
                    self.source@,
                    i as int,
                    end as int,
                ),
            decreases end - i,
        {
            if tree.is_kind(i, "comment") {
                let next = end_of_subtree(tree, i);
                if next > end {
                    return fingerprint;
                }
                i = next;
            } else {
                add_node(&mut fingerprint, tree, self.source, i);
                i += 1;
            }
        }
        fingerprint
    }
}

/// What a constant is counted by.
pub open spec fn constant_key(value: ConstantModel) -> Seq<char> {
    match value {
        ConstantModel::Number(n) => if n < 0 {
            "number:-"@ + text::decimal_of((-n) as nat)
        } else {
            "number:"@ + text::decimal_of(n as nat)
        },
        ConstantModel::Float(t) => "float:"@ + t,
        ConstantModel::Regex(t) => "regex:"@ + t,
        ConstantModel::Duration(n) => "duration:"@ + text::decimal_of(n as nat),
    }
}

/// What a call is counted by: its object and its method.
pub open spec fn api_key(call: ApiCallModel) -> Seq<char> {
    (match call.object {
        Some(object) => "Some("@ + alpha::quoted(object) + ")"@,
        None => "None"@,
    }) + "::"@ + call.method
}

/// How often something was counted.
pub open spec fn count_of(counts: Map<Seq<char>, usize>, key: Seq<char>) -> usize {
    if counts.contains_key(key) {
        counts[key]
    } else {
        0
    }
}

/// Counts after one more.
pub open spec fn counted(counts: Map<Seq<char>, usize>, key: Seq<char>) -> Map<Seq<char>, usize> {
    let n = count_of(counts, key);
    counts.insert(
        key,
        if n < usize::MAX {
            (n + 1) as usize
        } else {
            n
        },
    )
}

/// Counts after the first `count` keys.
pub open spec fn counted_upto(
    counts: Map<Seq<char>, usize>,
    keys: Seq<Seq<char>>,
    count: int,
) -> Map<Seq<char>, usize>
    decreases count,
{
    if count <= 0 {
        counts
    } else {
        counted(counted_upto(counts, keys, count - 1), keys[count - 1])
    }
}

/// The keys of strings.
pub open spec fn string_keys(f: FingerprintModel) -> Seq<Seq<char>> {
    f.strings.map_values(|s: StringModel| s.value)
}

/// The keys of constants.
pub open spec fn constant_keys(f: FingerprintModel) -> Seq<Seq<char>> {
    f.constants.map_values(|c: ConstantModel| constant_key(c))
}

/// The keys of calls.
pub open spec fn api_keys(f: FingerprintModel) -> Seq<Seq<char>> {
    f.api_calls.map_values(|a: ApiCallModel| api_key(a))
}

/// How much a string tells, in tenths, by how often it occurs.
pub open spec fn string_rarity(count: usize) -> u32 {
    if count == 0 {
        0
    } else if count == 1 {
        10
    } else if count == 2 {
        7
    } else if count <= 5 {
        4
    } else {
        1
    }
}

/// How much a constant tells, in tenths, by how often it occurs.
pub open spec fn constant_rarity(count: usize) -> u32 {
    if count == 0 {
        0
    } else if count == 1 {
        10
    } else if count == 2 {
        6
    } else if count <= 5 {
        3
    } else {
        1
    }
}

/// How much a call tells, in tenths, by how often it occurs.
pub open spec fn api_rarity(count: usize) -> u32 {
    if count == 0 {
        0
    } else if count <= 3 {
        8
    } else if count <= 10 {
        5
    } else {
        2
    }
}

/// How often strings, constants and calls occur.
pub struct RarityScorer {
    string_counts: StringHashMap<usize>,
    constant_counts: StringHashMap<usize>,
    api_counts: StringHashMap<usize>,
}

/// The counts of a [`RarityScorer`].
pub struct RarityModel {
    pub strings: Map<Seq<char>, usize>,
    pub constants: Map<Seq<char>, usize>,
    pub apis: Map<Seq<char>, usize>,
}

/// Counts after a fingerprint was added.
pub open spec fn with_fingerprint(r: RarityModel, f: FingerprintModel) -> RarityModel {
    RarityModel {
        strings: counted_upto(r.strings, string_keys(f), f.strings.len() as int),
        constants: counted_upto(r.constants, constant_keys(f), f.constants.len() as int),
        apis: counted_upto(r.apis, api_keys(f), f.api_calls.len() as int),
    }
}

fn add_key(counts: &mut StringHashMap<usize>, key: String)
    ensures
        final(counts)@ == counted(old(counts)@, key@),
{
    let n: usize = match counts.get(key.as_str()) {
        Some(n) => *n,
        None => 0,
    };
    let next: usize = if n < usize::MAX {
        n + 1
    } else {
        n
    };
    counts.insert(key, next);
}

fn key_of_constant(value: &ConstantValue) -> (key: String)
    ensures
        key@ == constant_key(value@),
{
    match value {
        ConstantValue::Number(n) => {
            let n: i64 = *n;
            if n == i64::MIN {
                "number:-".to_string().concat(decimal_text(0x8000_0000_0000_0000).as_str())
            } else if n < 0 {
                "number:-".to_string().concat(decimal_text((-n) as u64).as_str())
            } else {
                "number:".to_string().concat(decimal_text(n as u64).as_str())
            }
        },
        ConstantValue::Float(t) => "float:".to_string().concat(t.as_str()),
        ConstantValue::Regex(t) => "regex:".to_string().concat(t.as_str()),
        ConstantValue::Duration(n) => "duration:".to_string().concat(
            decimal_text(*n).as_str(),
        ),
    }
}

fn key_of_call(call: &ApiCallFingerprint) -> (key: String)
    ensures
        key@ == api_key(call@),
{
    let object = match &call.object {
        Some(object) => "Some(".to_string().concat(quote(object.as_str()).as_str()).concat(")"),
        None => "None".to_string(),
    };
    object.concat("::").concat(call.method.as_str())
}

impl View for RarityScorer {
    type V = RarityModel;

    closed spec fn view(&self) -> RarityModel {
        RarityModel {
            strings: self.string_counts@,
            constants: self.constant_counts@,
            apis: self.api_counts@,
        }
    }
}

impl RarityScorer {
    pub fn new() -> (scorer: Self)
        ensures
            scorer@ == (RarityModel {
                strings: Map::empty(),
                constants: Map::empty(),
                apis: Map::empty(),
            }),
    {
        RarityScorer {
            string_counts: StringHashMap::new(),
            constant_counts: StringHashMap::new(),
            api_counts: StringHashMap::new(),
        }
    }

    /// Counts what a function holds.
    pub fn add_fingerprint(&mut self, fp: &FunctionFingerprint)
        ensures
            final(self)@ == with_fingerprint(old(self)@, fp@),
    {
        let ghost before = self@;
        let ghost f = fp@;
        let mut i: usize = 0;
        while i < fp.strings.len()
            invariant
                f == fp@,
                i <= fp.strings@.len(),
                self@.strings == counted_upto(before.strings, string_keys(f), i as int),
                self@.constants == before.constants,
                self@.apis == before.apis,
            decreases fp.strings@.len() - i,
        {
            assert(f.strings[i as int] == fp.strings@[i as int]@);
            add_key(&mut self.string_counts, fp.strings[i].value.clone());
            i += 1;
        }
        let mut j: usize = 0;
        while j < fp.constants.len()
            invariant
                f == fp@,
                j <= fp.constants@.len(),
                self@.strings == with_fingerprint(before, f).strings,
                self@.constants == counted_upto(before.constants, constant_keys(f), j as int),
                self@.apis == before.apis,
            decreases fp.constants@.len() - j,
        {
            assert(f.constants[j as int] == fp.constants@[j as int].value@);
            add_key(&mut self.constant_counts, key_of_constant(&fp.constants[j].value));
            j += 1;
        }
        let mut k: usize = 0;
        while k < fp.api_calls.len()
            invariant
                f == fp@,
                k <= fp.api_calls@.len(),
                self@.strings == with_fingerprint(before, f).strings,
                self@.constants == with_fingerprint(before, f).constants,
                self@.apis == counted_upto(before.apis, api_keys(f), k as int),
            decreases fp.api_calls@.len() - k,
        {
            assert(f.api_calls[k as int] == fp.api_calls@[k as int]@);
            add_key(&mut self.api_counts, key_of_call(&fp.api_calls[k]));
            k += 1;
        }
    }

    /// How much a string tells, in tenths.
    pub fn score_string(&self, s: &str) -> (tenths: u32)
        ensures
            tenths == string_rarity(count_of(self@.strings, s@)),
    {
        match self.string_count(s) {
            0 => 0,
            1 => 10,
            2 => 7,
            3..=5 => 4,
            _ => 1,
        }
    }

    /// How much a constant tells, in tenths.
    pub fn score_constant(&self, c: &ConstantValue) -> (tenths: u32)
        ensures
            tenths == constant_rarity(count_of(self@.constants, constant_key(c@))),
    {
        match self.constant_count(c) {
            0 => 0,
            1 => 10,
            2 => 6,
            3..=5 => 3,
            _ => 1,
        }
    }

    /// How much a call tells, in tenths.
    pub fn score_api_call(&self, api: &ApiCallFingerprint) -> (tenths: u32)
        ensures
            tenths == api_rarity(count_of(self@.apis, api_key(api@))),
    {
        match self.api_count(api) {
            0 => 0,
            1..=3 => 8,
            4..=10 => 5,
            _ => 2,
        }
    }

    /// How often a string occurs.
    fn string_count(&self, s: &str) -> (count: usize)
        ensures
            count == count_of(self@.strings, s@),
    {
        match self.string_counts.get(s) {
            Some(count) => *count,
            None => 0,
        }
    }

    /// How often a constant occurs.
    fn constant_count(&self, c: &ConstantValue) -> (count: usize)
        ensures
            count == count_of(self@.constants, constant_key(c@)),
    {
        match self.constant_counts.get(key_of_constant(c).as_str()) {
            Some(count) => *count,
            None => 0,
        }
    }

    /// How often a call occurs.
    fn api_count(&self, api: &ApiCallFingerprint) -> (count: usize)
        ensures
            count == count_of(self@.apis, api_key(api@)),
    {
        match self.api_counts.get(key_of_call(api).as_str()) {
            Some(count) => *count,
            None => 0,
        }
    }
}

impl Default for RarityScorer {
    fn default() -> (scorer: Self)
        ensures
            scorer@ == (RarityModel {
                strings: Map::empty(),
                constants: Map::empty(),
                apis: Map::empty(),
            }),
    {
        RarityScorer::new()
    }
}

} // verus!
