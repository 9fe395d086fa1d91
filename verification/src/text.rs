//! Text seen as its UTF-8 bytes: comparison, slicing and decimal or
//! hexadecimal spellings.

use vstd::prelude::*;
use vstd::string::*;
use vstd::utf8::*;

use crate::chars;

verus! {

/// The text between two byte positions of `source`.
pub open spec fn text_between(source: Seq<char>, start: int, end: int) -> Seq<char> {
    decode_utf8(encode_utf8(source).subrange(start, end))
}

/// Whether the byte range lies in `source` and splits no character.
pub open spec fn is_text_range(source: Seq<char>, start: int, end: int) -> bool {
    &&& 0 <= start <= end <= encode_utf8(source).len()
    &&& is_char_boundary(encode_utf8(source), start)
    &&& is_char_boundary(encode_utf8(source), end)
}

/// Two texts with the same encoding are the same text.
pub proof fn lemma_encoding_is_injective(a: Seq<char>, b: Seq<char>)
    ensures
        (encode_utf8(a) == encode_utf8(b)) == (a == b),
{
    encode_utf8_decode_utf8(a);
    encode_utf8_decode_utf8(b);
}

/// The bytes of a slice are the bytes of the range it was taken from.
pub proof fn lemma_text_between_bytes(source: Seq<char>, start: int, end: int)
    requires
        is_text_range(source, start, end),
    ensures
        encode_utf8(text_between(source, start, end)) == encode_utf8(source).subrange(start, end),
{
    let bytes = encode_utf8(source);
    encode_utf8_valid_utf8(source);
    lemma_boundary_of_prefix(bytes, start, end);
    valid_utf8_split(bytes, end);
    valid_utf8_split(bytes.subrange(0, end), start);
    assert(bytes.subrange(0, end).subrange(start, end) =~= bytes.subrange(start, end));
    decode_utf8_encode_utf8(bytes.subrange(start, end));
}

proof fn lemma_boundary_of_prefix(bytes: Seq<u8>, start: int, end: int)
    requires
        valid_utf8(bytes),
        0 <= start <= end <= bytes.len(),
        is_char_boundary(bytes, start),
        is_char_boundary(bytes, end),
    ensures
        valid_utf8(bytes.subrange(0, end)),
        is_char_boundary(bytes.subrange(0, end), start),
{
    let prefix = bytes.subrange(0, end);
    valid_utf8_split(bytes, end);
    if start < end {
        is_char_boundary_iff_not_is_continuation_byte(bytes, start);
        is_char_boundary_iff_not_is_continuation_byte(prefix, start);
    } else {
        is_char_boundary_start_end_of_seq(prefix);
    }
}

/// The encoding of joined texts is the joined encodings.
pub proof fn lemma_encode_concat(a: Seq<char>, b: Seq<char>)
    ensures
        encode_utf8(a + b) == encode_utf8(a) + encode_utf8(b),
    decreases a.len(),
{
    if a.len() == 0 {
        assert(a + b =~= b);
    } else {
        lemma_encode_concat(a.drop_first(), b);
        assert((a + b).drop_first() =~= a.drop_first() + b);
        assert(encode_utf8(a + b) =~= encode_scalar(a[0] as u32) + (encode_utf8(a.drop_first())
            + encode_utf8(b)));
    }
}

/// The number of bytes that the first `count` characters take up.
pub open spec fn bytes_before(text: Seq<char>, count: int) -> nat {
    encode_utf8(text.take(count)).len()
}

/// The number of characters in front of a byte position.
pub open spec fn chars_before(text: Seq<char>, offset: int) -> nat {
    decode_utf8(encode_utf8(text).subrange(0, offset)).len()
}

/// One more character takes up the bytes of its encoding.
pub proof fn lemma_bytes_before_step(text: Seq<char>, count: int)
    requires
        0 <= count < text.len(),
    ensures
        bytes_before(text, count + 1) == bytes_before(text, count) + encode_scalar(
            text[count] as u32,
        ).len(),
        1 <= encode_scalar(text[count] as u32).len() <= 4,
        bytes_before(text, count + 1) <= encode_utf8(text).len(),
{
    let one = seq![text[count]];
    assert(text.take(count + 1) =~= text.take(count) + one);
    lemma_encode_concat(text.take(count), one);
    assert(one.drop_first() =~= Seq::empty());
    assert(encode_utf8(one.drop_first()) =~= Seq::empty());
    assert(one[0] == text[count]);
    assert(encode_utf8(one) == encode_scalar(one[0] as u32) + encode_utf8(one.drop_first()));
    assert(encode_utf8(one) =~= encode_scalar(text[count] as u32));
    lemma_bytes_before_bound(text, count + 1);
}

/// A prefix of the text is a prefix of the bytes.
pub proof fn lemma_bytes_before_bound(text: Seq<char>, count: int)
    requires
        0 <= count <= text.len(),
    ensures
        bytes_before(text, count) <= encode_utf8(text).len(),
        encode_utf8(text).subrange(0, bytes_before(text, count) as int) == encode_utf8(
            text.take(count),
        ),
        chars_before(text, bytes_before(text, count) as int) == count,
        is_char_boundary(encode_utf8(text), bytes_before(text, count) as int),
{
    assert(text =~= text.take(count) + text.skip(count));
    lemma_encode_concat(text.take(count), text.skip(count));
    let bytes = encode_utf8(text);
    let n = bytes_before(text, count) as int;
    assert(bytes.subrange(0, n) =~= encode_utf8(text.take(count)));
    encode_utf8_decode_utf8(text.take(count));
    encode_utf8_valid_utf8(text);
    lemma_prefix_is_boundary(text, count);
}

proof fn lemma_prefix_is_boundary(text: Seq<char>, count: int)
    requires
        0 <= count <= text.len(),
    ensures
        is_char_boundary(encode_utf8(text), bytes_before(text, count) as int),
    decreases count,
{
    let bytes = encode_utf8(text);
    encode_utf8_valid_utf8(text);
    if count == 0 {
        assert(text.take(0) =~= Seq::empty());
    } else {
        let rest = text.drop_first();
        lemma_prefix_is_boundary(rest, count - 1);
        encode_utf8_first_scalar(text);
        assert(text.take(count).drop_first() =~= rest.take(count - 1));
        assert(text.take(count)[0] == text[0]);
        assert(bytes_before(text, count) == encode_scalar(text[0] as u32).len() + bytes_before(
            rest,
            count - 1,
        ));
        assert(pop_first_scalar(bytes) =~= encode_utf8(rest));
        assert(bytes == encode_scalar(text[0] as u32) + encode_utf8(rest));
        lemma_bytes_before_le(text, count);
    }
}

proof fn lemma_bytes_before_le(text: Seq<char>, count: int)
    requires
        0 <= count <= text.len(),
    ensures
        bytes_before(text, count) <= encode_utf8(text).len(),
{
    assert(text =~= text.take(count) + text.skip(count));
    lemma_encode_concat(text.take(count), text.skip(count));
}

/// A character boundary is where some number of characters end.
pub proof fn lemma_boundary_is_prefix(text: Seq<char>, offset: int)
    requires
        0 <= offset <= encode_utf8(text).len(),
        is_char_boundary(encode_utf8(text), offset),
    ensures
        chars_before(text, offset) <= text.len(),
        bytes_before(text, chars_before(text, offset) as int) == offset,
{
    let bytes = encode_utf8(text);
    encode_utf8_valid_utf8(text);
    encode_utf8_decode_utf8(text);
    valid_utf8_split(bytes, offset);
    decode_utf8_split(bytes, offset);
    let prefix = decode_utf8(bytes.subrange(0, offset));
    assert(text.take(prefix.len() as int) =~= prefix);
    decode_utf8_encode_utf8(bytes.subrange(0, offset));
}

/// More characters take up more bytes.
pub proof fn lemma_bytes_before_monotone(text: Seq<char>, a: int, b: int)
    requires
        0 <= a <= b <= text.len(),
    ensures
        bytes_before(text, a) + (b - a) <= bytes_before(text, b),
    decreases b - a,
{
    if a < b {
        lemma_bytes_before_step(text, a);
        lemma_bytes_before_monotone(text, a + 1, b);
    }
}

/// The number of bytes of a character's encoding.
pub fn utf8_width(c: char) -> (width: usize)
    ensures
        width == encode_scalar(c as u32).len(),
        1 <= width <= 4,
{
    let code: u32 = c as u32;
    if code <= 0x7f {
        1
    } else if code <= 0x7ff {
        2
    } else if code <= 0xffff {
        3
    } else {
        4
    }
}

/// Whether two byte strings are equal.
pub fn same_bytes(a: &[u8], b: &[u8]) -> (r: bool)
    ensures
        r == (a@ == b@),
{
    if a.len() != b.len() {
        return false;
    }
    let mut i: usize = 0;
    while i < a.len()
        invariant
            a@.len() == b@.len(),
            i <= a@.len(),
            forall|j: int| 0 <= j < i ==> a@[j] == b@[j],
        decreases a@.len() - i,
    {
        if a[i] != b[i] {
            return false;
        }
        i += 1;
    }
    assert(a@ =~= b@);
    true
}

/// Whether two texts are equal.
pub fn same_text(a: &str, b: &str) -> (r: bool)
    ensures
        r == (a@ == b@),
{
    proof {
        lemma_encoding_is_injective(a@, b@);
    }
    same_bytes(a.as_bytes(), b.as_bytes())
}

/// The text in a byte range, when the range splits no character.
pub fn slice_text<'a>(source: &'a str, start: usize, end: usize) -> (r: Option<&'a str>)
    ensures
        r is Some == is_text_range(source@, start as int, end as int),
        r matches Some(t) ==> t@ == text_between(source@, start as int, end as int),
{
    let bytes = source.as_bytes();
    if start > end || end > bytes.len() {
        return None;
    }
    if !source.is_char_boundary(start) || !source.is_char_boundary(end) {
        return None;
    }
    proof {
        encode_utf8_valid_utf8(source@);
        lemma_boundary_of_prefix(encode_utf8(source@), start as int, end as int);
    }
    let (left, _) = source.split_at(end);
    let (_, middle) = left.split_at(start);
    proof {
        let whole = encode_utf8(source@);
        assert(middle.spec_bytes() =~= whole.subrange(start as int, end as int));
        encode_utf8_decode_utf8(middle@);
    }
    Some(middle)
}

/// `std`'s `String::push` appends one character.
pub assume_specification[ std::string::String::push ](target: &mut String, c: char)
    ensures
        final(target)@ == old(target)@.push(c),
;

/// The lowercase hexadecimal digit of a value below 16.
pub open spec fn hex_digit(value: int) -> char {
    if value < 10 {
        (value + 0x30) as char
    } else {
        (value - 10 + 0x61) as char
    }
}

/// Two lowercase hexadecimal digits for each byte.
pub open spec fn hex_of(bytes: Seq<u8>) -> Seq<char>
    decreases bytes.len(),
{
    if bytes.len() == 0 {
        Seq::empty()
    } else {
        hex_of(bytes.drop_last()).push(hex_digit(bytes.last() as int / 16)).push(
            hex_digit(bytes.last() as int % 16),
        )
    }
}

pub(crate) fn hex_char(value: u8) -> (c: char)
    requires
        value < 16,
    ensures
        c == hex_digit(value as int),
{
    if value < 10 {
        (value + 0x30) as char
    } else {
        (value - 10 + 0x61) as char
    }
}

/// Spells bytes in lowercase hexadecimal.
pub fn hex_text(bytes: &[u8]) -> (hex: String)
    ensures
        hex@ == hex_of(bytes@),
{
    let mut hex = String::new();
    let mut i: usize = 0;
    assert(bytes@.take(0) =~= Seq::empty());
    while i < bytes.len()
        invariant
            i <= bytes@.len(),
            hex@ == hex_of(bytes@.take(i as int)),
        decreases bytes@.len() - i,
    {
        proof {
            assert(bytes@.take(i + 1).drop_last() =~= bytes@.take(i as int));
            assert(bytes@.take(i + 1).last() == bytes@[i as int]);
        }
        hex.push(hex_char(bytes[i] / 16));
        hex.push(hex_char(bytes[i] % 16));
        i += 1;
    }
    assert(bytes@.take(i as int) =~= bytes@);
    hex
}

/// An optional text seen as its characters.
pub open spec fn optional_view(text: Option<String>) -> Option<Seq<char>> {
    match text {
        Some(text) => Some(text@),
        None => None,
    }
}

/// Optional texts seen as their characters.
pub open spec fn optional_views(texts: Seq<Option<String>>) -> Seq<Option<Seq<char>>> {
    texts.map_values(|text: Option<String>| optional_view(text))
}

/// Texts seen as their characters.
pub open spec fn views(texts: Seq<String>) -> Seq<Seq<char>> {
    texts.map_values(|text: String| text@)
}

/// Copies an optional text.
pub fn clone_optional(text: &Option<String>) -> (copy: Option<String>)
    ensures
        copy == *text,
{
    match text {
        Some(text) => Some(text.clone()),
        None => None,
    }
}

/// Copies a list of optional texts.
pub fn clone_optionals(texts: &Vec<Option<String>>) -> (copy: Vec<Option<String>>)
    ensures
        copy@ == texts@,
{
    let mut copy: Vec<Option<String>> = Vec::new();
    let mut i: usize = 0;
    while i < texts.len()
        invariant
            i <= texts@.len(),
            copy@ == texts@.take(i as int),
        decreases texts@.len() - i,
    {
        copy.push(clone_optional(&texts[i]));
        i += 1;
        assert(copy@ =~= texts@.take(i as int));
    }
    assert(texts@.take(i as int) =~= texts@);
    copy
}

/// Copies a list of texts.
pub fn clone_texts(texts: &Vec<String>) -> (copy: Vec<String>)
    ensures
        copy@ == texts@,
{
    let mut copy: Vec<String> = Vec::new();
    let mut i: usize = 0;
    while i < texts.len()
        invariant
            i <= texts@.len(),
            copy@ == texts@.take(i as int),
        decreases texts@.len() - i,
    {
        copy.push(texts[i].clone());
        i += 1;
        assert(copy@ =~= texts@.take(i as int));
    }
    assert(texts@.take(i as int) =~= texts@);
    copy
}

/// The decimal digits of a number.
pub open spec fn decimal_of(value: nat) -> Seq<char>
    decreases value,
{
    if value < 10 {
        seq![hex_digit(value as int)]
    } else {
        decimal_of(value / 10).push(hex_digit(value as int % 10))
    }
}

/// Spells a number in decimal.
pub fn decimal_text(value: u64) -> (digits: String)
    ensures
        digits@ == decimal_of(value as nat),
    decreases value,
{
    let last = hex_char((value % 10) as u8);
    if value < 10 {
        let mut digits = String::new();
        digits.push(last);
        assert(digits@ =~= decimal_of(value as nat));
        digits
    } else {
        let mut digits = decimal_text(value / 10);
        digits.push(last);
        digits
    }
}

/// A number between two texts.
pub fn numbered_text(before: &str, number: u64, after: &str) -> (r: String)
    ensures
        r@ == before@ + decimal_of(number as nat) + after@,
{
    before.to_string().concat(decimal_text(number).as_str()).concat(after)
}

proof fn lemma_hex_digits(a: int, b: int)
    requires
        0 <= a < 16,
        0 <= b < 16,
        hex_digit(a) == hex_digit(b),
    ensures
        a == b,
{
}

/// Bytes with the same spelling are the same bytes.
pub proof fn lemma_hex_is_injective(a: Seq<u8>, b: Seq<u8>)
    ensures
        (hex_of(a) == hex_of(b)) == (a == b),
        hex_of(a).len() == 2 * a.len(),
    decreases a.len(),
{
    if a.len() == 0 {
        if b.len() > 0 {
            assert(hex_of(b).len() > 0);
        } else {
            assert(a =~= b);
        }
    } else {
        lemma_hex_is_injective(a.drop_last(), b.drop_last());
        if hex_of(a) == hex_of(b) {
            let x = a.last() as int;
            let y = b.last() as int;
            let p = hex_of(a.drop_last());
            let q = hex_of(b.drop_last());
            assert(hex_of(a).len() > 0);
            if b.len() == 0 {
                assert(hex_of(b).len() == 0);
            }
            let n = hex_of(a).len() as int;
            assert(hex_of(a)[n - 1] == hex_digit(x % 16));
            assert(hex_of(b)[n - 1] == hex_digit(y % 16));
            assert(hex_of(a)[n - 2] == hex_digit(x / 16));
            assert(hex_of(b)[n - 2] == hex_digit(y / 16));
            lemma_hex_digits(x % 16, y % 16);
            lemma_hex_digits(x / 16, y / 16);
            assert(p =~= hex_of(a).take(n - 2));
            assert(q =~= hex_of(b).take(n - 2));
            assert(a =~= a.drop_last().push(a.last()));
            assert(b =~= b.drop_last().push(b.last()));
        }
    }
}

/// Whether a character is a lowercase hexadecimal digit.
pub open spec fn is_hex_char(c: char) -> bool {
    '0' <= c <= '9' || 'a' <= c <= 'f'
}

/// Whether a text spells 256 bits in lowercase hexadecimal.
pub open spec fn is_digest_text(text: Seq<char>) -> bool {
    text.len() == 64 && forall|i: int| 0 <= i < text.len() ==> is_hex_char(#[trigger] text[i])
}

/// Whether a text spells 256 bits in lowercase hexadecimal.
pub fn spells_digest(value: &str) -> (r: bool)
    ensures
        r == is_digest_text(value@),
{
    if !value.is_ascii() {
        return false;
    }
    proof {
        is_ascii_chars_encode_utf8(value@);
    }
    let bytes = value.as_bytes();
    if bytes.len() != 64 {
        return false;
    }
    let mut i: usize = 0;
    while i < 64
        invariant
            i <= 64,
            bytes@.len() == 64,
            value@.len() == 64,
            forall|k: int| 0 <= k < 64 ==> #[trigger] bytes@[k] == value@[k] as u8,
            is_ascii_chars(value@),
            forall|k: int| 0 <= k < i ==> is_hex_char(#[trigger] value@[k]),
        decreases 64 - i,
    {
        let byte = bytes[i];
        assert('\0' <= value@[i as int] <= '\u{7f}');
        if !((0x30 <= byte && byte <= 0x39) || (0x61 <= byte && byte <= 0x66)) {
            assert(!is_hex_char(value@[i as int]));
            return false;
        }
        i += 1;
    }
    true
}

/// The spelling of 32 bytes spells 256 bits.
pub proof fn lemma_hex_spells_digest(bytes: Seq<u8>)
    requires
        bytes.len() == 32,
    ensures
        is_digest_text(hex_of(bytes)),
{
    lemma_hex_is_injective(bytes, bytes);
    lemma_hex_chars(bytes);
}

proof fn lemma_hex_chars(bytes: Seq<u8>)
    ensures
        forall|i: int| 0 <= i < hex_of(bytes).len() ==> is_hex_char(#[trigger] hex_of(bytes)[i]),
    decreases bytes.len(),
{
    if bytes.len() > 0 {
        lemma_hex_chars(bytes.drop_last());
        let shorter = hex_of(bytes.drop_last());
        let longer = hex_of(bytes);
        assert forall|i: int| 0 <= i < longer.len() implies is_hex_char(#[trigger] longer[i]) by {
            if i < shorter.len() {
                assert(longer[i] == shorter[i]);
            }
        }
    }
}

/// Whether a character may stand in a metadata token.
pub open spec fn is_token_char(c: char) -> bool {
    '0' <= c <= '9' || 'a' <= c <= 'z' || 'A' <= c <= 'Z' || c == '.' || c == '_' || c == '-' || c
        == ':'
}

/// Whether a text is a metadata token.
pub open spec fn is_token(text: Seq<char>) -> bool {
    1 <= text.len() <= 128 && forall|i: int|
        0 <= i < text.len() ==> is_token_char(#[trigger] text[i])
}

/// Whether a text is a metadata token.
pub fn fits_token(value: &str) -> (r: bool)
    ensures
        r == is_token(value@),
{
    if !value.is_ascii() {
        return false;
    }
    proof {
        is_ascii_chars_encode_utf8(value@);
    }
    let bytes = value.as_bytes();
    let length: usize = bytes.len();
    if length == 0 || length > 128 {
        return false;
    }
    let mut i: usize = 0;
    while i < length
        invariant
            i <= length,
            bytes@.len() == length,
            value@.len() == length,
            forall|k: int| 0 <= k < length ==> #[trigger] bytes@[k] == value@[k] as u8,
            is_ascii_chars(value@),
            forall|k: int| 0 <= k < i ==> is_token_char(#[trigger] value@[k]),
        decreases length - i,
    {
        let byte = bytes[i];
        assert('\0' <= value@[i as int] <= '\u{7f}');
        if !((0x30 <= byte && byte <= 0x39) || (0x61 <= byte && byte <= 0x7a) || (0x41 <= byte
            && byte <= 0x5a) || byte == 0x2e || byte == 0x5f || byte == 0x2d || byte == 0x3a) {
            assert(!is_token_char(value@[i as int]));
            return false;
        }
        i += 1;
    }
    true
}

/// Whether a character may stand in the kind of a syntax node: the kind of a
/// punctuation mark is its spelling.
pub open spec fn is_visible_char(c: char) -> bool {
    '!' <= c <= '~'
}

/// Whether a text is the kind of a syntax node.
pub open spec fn is_node_kind(text: Seq<char>) -> bool {
    1 <= text.len() <= 128 && forall|i: int|
        0 <= i < text.len() ==> is_visible_char(#[trigger] text[i])
}

/// Whether a text is the kind of a syntax node.
pub fn fits_node_kind(value: &str) -> (r: bool)
    ensures
        r == is_node_kind(value@),
{
    if !value.is_ascii() {
        return false;
    }
    proof {
        is_ascii_chars_encode_utf8(value@);
    }
    let bytes = value.as_bytes();
    let length: usize = bytes.len();
    if length == 0 || length > 128 {
        return false;
    }
    let mut i: usize = 0;
    while i < length
        invariant
            i <= length,
            bytes@.len() == length,
            value@.len() == length,
            forall|k: int| 0 <= k < length ==> #[trigger] bytes@[k] == value@[k] as u8,
            is_ascii_chars(value@),
            forall|k: int| 0 <= k < i ==> is_visible_char(#[trigger] value@[k]),
        decreases length - i,
    {
        let byte = bytes[i];
        assert('\0' <= value@[i as int] <= '\u{7f}');
        if !(0x21 <= byte && byte <= 0x7e) {
            assert(!is_visible_char(value@[i as int]));
            return false;
        }
        i += 1;
    }
    true
}

/// Whether two optional texts are the same.
pub fn same_optional(a: &Option<String>, b: &Option<String>) -> (r: bool)
    ensures
        r == (optional_view(*a) == optional_view(*b)),
{
    match (a, b) {
        (Some(a), Some(b)) => same_text(a.as_str(), b.as_str()),
        (None, None) => true,
        _ => false,
    }
}

/// The characters of a text.
pub fn chars_of(value: &str) -> (characters: Vec<char>)
    ensures
        characters@ == value@,
{
    let mut characters: Vec<char> = Vec::new();
    let mut rest = value.chars();
    assert(value@.skip(0) =~= value@);
    loop
        invariant
            characters@.len() <= value@.len(),
            characters@ == value@.take(characters@.len() as int),
            vstd::std_specs::iter::IteratorSpec::remaining(&rest) == value@.skip(
                characters@.len() as int,
            ),
            vstd::std_specs::iter::IteratorSpec::obeys_prophetic_iter_laws(&rest),
        ensures
            characters@ == value@,
        decreases value@.len() - characters@.len(),
    {
        let ghost count = characters@.len() as int;
        match rest.next() {
            Some(c) => {
                assert(value@.skip(count).drop_first() =~= value@.skip(count + 1));
                characters.push(c);
                assert(characters@ =~= value@.take(count + 1));
            },
            None => {
                assert(value@.take(count) =~= value@);
                break;
            },
        }
    }
    characters
}

/// A text starts and ends between characters.
pub proof fn lemma_ends_are_boundaries(source: Seq<char>)
    ensures
        is_text_range(source, 0, 0),
        is_text_range(source, 0, encode_utf8(source).len() as int),
{
    encode_utf8_valid_utf8(source);
    is_char_boundary_start_end_of_seq(encode_utf8(source));
}

/// The range of a whole text holds the text.
pub proof fn lemma_whole_text(source: Seq<char>)
    ensures
        text_between(source, 0, encode_utf8(source).len() as int) == source,
{
    assert(encode_utf8(source).subrange(0, encode_utf8(source).len() as int) =~= encode_utf8(
        source,
    ));
    encode_utf8_decode_utf8(source);
}

/// An empty range holds nothing.
pub proof fn lemma_empty_range(source: Seq<char>, at: int)
    requires
        0 <= at <= encode_utf8(source).len(),
    ensures
        text_between(source, at, at) == Seq::<char>::empty(),
{
    assert(encode_utf8(source).subrange(at, at) =~= encode_utf8(Seq::empty()));
    encode_utf8_decode_utf8(Seq::empty());
}

/// Two ranges that meet hold what the range over both holds.
pub proof fn lemma_ranges_join(source: Seq<char>, a: int, b: int, c: int)
    requires
        is_text_range(source, a, b),
        is_text_range(source, b, c),
    ensures
        is_text_range(source, a, c),
        text_between(source, a, c) == text_between(source, a, b) + text_between(source, b, c),
{
    let bytes = encode_utf8(source);
    lemma_text_between_bytes(source, a, b);
    lemma_text_between_bytes(source, b, c);
    lemma_text_between_bytes(source, a, c);
    lemma_encode_concat(text_between(source, a, b), text_between(source, b, c));
    assert(bytes.subrange(a, c) =~= bytes.subrange(a, b) + bytes.subrange(b, c));
    lemma_encoding_is_injective(
        text_between(source, a, c),
        text_between(source, a, b) + text_between(source, b, c),
    );
}

/// The first character of a text.
pub fn first_char(value: &str) -> (r: Option<char>)
    ensures
        r == (if value@.len() > 0 {
            Some(value@[0])
        } else {
            None
        }),
{
    let mut rest = value.chars();
    rest.next()
}

/// The shortest lowercase hexadecimal spelling of a number.
pub open spec fn hex_number_of(value: nat) -> Seq<char>
    decreases value,
{
    if value < 16 {
        seq![hex_digit(value as int)]
    } else {
        hex_number_of(value / 16).push(hex_digit(value as int % 16))
    }
}

/// The shortest lowercase hexadecimal spelling of a number.
pub fn hex_number(value: u64) -> (digits: String)
    ensures
        digits@ == hex_number_of(value as nat),
    decreases value,
{
    let last = hex_char((value % 16) as u8);
    if value < 16 {
        let mut digits = String::new();
        digits.push(last);
        assert(digits@ =~= hex_number_of(value as nat));
        digits
    } else {
        let mut digits = hex_number(value / 16);
        digits.push(last);
        digits
    }
}

/// A text of characters.
pub fn string_of(characters: &Vec<char>) -> (text: String)
    ensures
        text@ == characters@,
{
    let mut text = String::new();
    let mut i: usize = 0;
    while i < characters.len()
        invariant
            i <= characters@.len(),
            text@ == characters@.take(i as int),
        decreases characters@.len() - i,
    {
        text.push(characters[i]);
        i += 1;
        assert(text@ =~= characters@.take(i as int));
    }
    assert(characters@.take(i as int) =~= characters@);
    text
}

/// The characters from one place to another.
pub(crate) fn slice_chars(characters: &Vec<char>, start: usize, end: usize) -> (part: Vec<char>)
    requires
        start <= end <= characters@.len(),
    ensures
        part@ == characters@.subrange(start as int, end as int),
{
    let mut part: Vec<char> = Vec::new();
    let mut i: usize = start;
    while i < end
        invariant
            start <= i <= end <= characters@.len(),
            part@ == characters@.subrange(start as int, i as int),
        decreases end - i,
    {
        part.push(characters[i]);
        i += 1;
        assert(part@ =~= characters@.subrange(start as int, i as int));
    }
    part
}

/// The first place from `i` on that holds a character, or the end.
pub open spec fn find_char(t: Seq<char>, c: char, i: int) -> int
    decreases t.len() - i,
{
    if i < 0 || i >= t.len() || t[i] == c {
        i
    } else {
        find_char(t, c, i + 1)
    }
}

/// The first place from `start` on that holds a character, or the end.
pub(crate) fn position_of_char(t: &Vec<char>, c: char, start: usize) -> (at: usize)
    requires
        start <= t@.len(),
    ensures
        at == find_char(t@, c, start as int),
        start <= at <= t@.len(),
{
    let mut i: usize = start;
    while i < t.len() && t[i] != c
        invariant
            start <= i <= t@.len(),
            find_char(t@, c, start as int) == find_char(t@, c, i as int),
        decreases t@.len() - i,
    {
        i += 1;
    }
    i
}

/// A search finds a place at or behind its start.
pub proof fn lemma_find_char(t: Seq<char>, c: char, i: int)
    requires
        0 <= i <= t.len(),
    ensures
        i <= find_char(t, c, i) <= t.len(),
        find_char(t, c, i) < t.len() ==> t[find_char(t, c, i)] == c,
    decreases t.len() - i,
{
    if i < t.len() && t[i] != c {
        lemma_find_char(t, c, i + 1);
    }
}

/// A line without its end: one carriage return ahead of the line feed is part
/// of it.
pub open spec fn line_body(line: Seq<char>, ended: bool) -> Seq<char> {
    if ended && line.len() > 0 && line.last() == '\r' {
        line.drop_last()
    } else {
        line
    }
}

/// The lines of a text from a place on.
pub open spec fn lines_from(t: Seq<char>, i: int) -> Seq<Seq<char>>
    decreases t.len() - i,
{
    if i < 0 || i >= t.len() {
        Seq::empty()
    } else {
        let end = find_char(t, '\n', i);
        if i <= end < t.len() {
            seq![line_body(t.subrange(i, end), true)] + lines_from(t, end + 1)
        } else {
            seq![t.subrange(i, t.len() as int)]
        }
    }
}

/// The lines of a text, without their ends. The end of the last line may be
/// missing.
pub open spec fn lines_of(t: Seq<char>) -> Seq<Seq<char>> {
    lines_from(t, 0)
}

/// The lines of a text.
pub fn split_lines(value: &str) -> (lines: Vec<String>)
    ensures
        views(lines@) == lines_of(value@),
{
    let t = chars_of(value);
    let ghost all = lines_of(value@);
    let mut lines: Vec<String> = Vec::new();
    let mut i: usize = 0;
    assert(views(lines@) + lines_from(t@, 0) =~= all);
    while i < t.len()
        invariant
            t@ == value@,
            i <= t@.len(),
            all == views(lines@) + lines_from(t@, i as int),
        decreases t@.len() - i,
    {
        let end = position_of_char(&t, '\n', i);
        let stop: usize = if end < t.len() && end > i && t[end - 1] == '\r' {
            end - 1
        } else {
            end
        };
        let line = string_of(&slice_chars(&t, i, stop));
        let ghost before = lines@;
        proof {
            let whole = t@.subrange(i as int, end as int);
            assert(end > i ==> whole.last() == t@[end - 1]);
            assert(line@ =~= line_body(whole, end < t@.len()));
        }
        lines.push(line);
        assert(views(lines@) =~= views(before).push(line@));
        if end < t.len() {
            assert(all =~= views(lines@) + lines_from(t@, end + 1));
            i = end + 1;
        } else {
            assert(all =~= views(lines@) + lines_from(t@, end as int));
            i = end;
        }
    }
    assert(all =~= views(lines@));
    lines
}

/// Texts with a text between them.
pub open spec fn joined(parts: Seq<Seq<char>>, between: Seq<char>) -> Seq<char>
    decreases parts.len(),
{
    if parts.len() == 0 {
        Seq::empty()
    } else if parts.len() == 1 {
        parts[0]
    } else {
        joined(parts.drop_last(), between) + between + parts.last()
    }
}

/// Texts with a text between them.
pub fn join_texts(parts: &Vec<String>, between: &str) -> (text: String)
    ensures
        text@ == joined(views(parts@), between@),
{
    let ghost all = views(parts@);
    let mut text = String::new();
    let mut i: usize = 0;
    assert(all.take(0) =~= Seq::empty());
    while i < parts.len()
        invariant
            all == views(parts@),
            all.len() == parts@.len(),
            i <= parts@.len(),
            text@ == joined(all.take(i as int), between@),
        decreases parts@.len() - i,
    {
        let ghost shorter = all.take(i as int);
        let ghost longer = all.take(i + 1);
        assert(longer.drop_last() =~= shorter);
        assert(longer.last() == parts@[i as int]@);
        if i > 0 {
            text = text.concat(between);
        }
        text = text.concat(parts[i].as_str());
        assert(text@ =~= joined(longer, between@));
        i += 1;
    }
    assert(all.take(i as int) =~= all);
    text
}

/// The first place from `i` on that holds no white space, or the end.
pub open spec fn skip_space(t: Seq<char>, i: int) -> int
    decreases t.len() - i,
{
    if i < 0 || i >= t.len() || !chars::is_space(t[i]) {
        i
    } else {
        skip_space(t, i + 1)
    }
}

/// The end of what white space at the end leaves.
pub open spec fn space_start(t: Seq<char>, end: int) -> int
    decreases end,
{
    if end <= 0 || !chars::is_space(t[end - 1]) {
        end
    } else {
        space_start(t, end - 1)
    }
}

/// A text without white space at its start.
pub open spec fn trimmed_start(t: Seq<char>) -> Seq<char> {
    t.subrange(skip_space(t, 0), t.len() as int)
}

/// A text without white space at its end.
pub open spec fn trimmed_end(t: Seq<char>) -> Seq<char> {
    t.subrange(0, space_start(t, t.len() as int))
}

/// A text without white space at its start and its end.
pub open spec fn trimmed(t: Seq<char>) -> Seq<char> {
    trimmed_end(trimmed_start(t))
}

/// The place of the first character that is no white space, or the end.
pub fn first_ink(t: &Vec<char>) -> (at: usize)
    ensures
        at == skip_space(t@, 0),
        at <= t@.len(),
{
    let mut i: usize = 0;
    while i < t.len() && t[i].is_whitespace()
        invariant
            i <= t@.len(),
            skip_space(t@, 0) == skip_space(t@, i as int),
        decreases t@.len() - i,
    {
        i += 1;
    }
    i
}

/// The place behind the last character that is no white space.
pub fn last_ink(t: &Vec<char>) -> (end: usize)
    ensures
        end == space_start(t@, t@.len() as int),
        end <= t@.len(),
{
    let mut end: usize = t.len();
    while end > 0 && t[end - 1].is_whitespace()
        invariant
            end <= t@.len(),
            space_start(t@, t@.len() as int) == space_start(t@, end as int),
        decreases end,
    {
        end -= 1;
    }
    end
}

/// A text without white space at its start and its end.
pub fn trim_chars(t: &Vec<char>) -> (r: Vec<char>)
    ensures
        r@ == trimmed(t@),
{
    let front = slice_chars(t, first_ink(t), t.len());
    slice_chars(&front, 0, last_ink(&front))
}

/// `std::str::from_utf8`, copied into a `String`: gives the text that bytes
/// encode, exactly where they are valid UTF-8.
#[verifier::external_body]
pub(crate) fn text_from_bytes(part: &[u8]) -> (r: Option<String>)
    ensures
        match r {
            Some(t) => valid_utf8(part@) && t@ == decode_utf8(part@),
            None => !valid_utf8(part@),
        },
{
    std::str::from_utf8(part).ok().map(str::to_string)
}

/// The number that digits spell, the first ones counting most.
pub open spec fn number_of(digits: Seq<char>, base: int) -> int
    decreases digits.len(),
{
    if digits.len() == 0 {
        0
    } else {
        let c = digits.last();
        number_of(digits.drop_last(), base) * base + if '0' <= c <= '9' {
            c as int - '0' as int
        } else {
            c as int - 'a' as int + 10
        }
    }
}

proof fn lemma_digit(value: int)
    requires
        0 <= value < 16,
    ensures
        ({
            let c = hex_digit(value);
            &&& value < 10 <==> '0' <= c <= '9'
            &&& value >= 10 <==> 'a' <= c <= 'f'
            &&& value == if '0' <= c <= '9' {
                c as int - '0' as int
            } else {
                c as int - 'a' as int + 10
            }
        }),
{
}

/// Decimal digits spell their number back, with no zero ahead.
pub proof fn law_decimal_digits_read_back(value: nat)
    ensures
        number_of(decimal_of(value), 10) == value,
        decimal_of(value).len() > 0,
        value > 0 ==> decimal_of(value)[0] != '0',
        forall|i: int|
            0 <= i < decimal_of(value).len() ==> '0' <= #[trigger] decimal_of(value)[i] <= '9',
    decreases value,
{
    lemma_digit(value as int % 10);
    if value >= 10 {
        law_decimal_digits_read_back(value / 10);
        let ahead = decimal_of(value / 10);
        assert(ahead.push(hex_digit(value as int % 10)).drop_last() =~= ahead);
    } else {
        assert(decimal_of(value).drop_last() =~= Seq::empty());
        assert(number_of(Seq::<char>::empty(), 10) == 0);
    }
}

/// Hexadecimal digits spell their number back, with no zero ahead.
pub proof fn law_hex_digits_read_back(value: nat)
    ensures
        number_of(hex_number_of(value), 16) == value,
        hex_number_of(value).len() > 0,
        value > 0 ==> hex_number_of(value)[0] != '0',
    decreases value,
{
    lemma_digit(value as int % 16);
    if value >= 16 {
        law_hex_digits_read_back(value / 16);
        let ahead = hex_number_of(value / 16);
        assert(ahead.push(hex_digit(value as int % 16)).drop_last() =~= ahead);
    } else {
        assert(hex_number_of(value).drop_last() =~= Seq::empty());
        assert(number_of(Seq::<char>::empty(), 16) == 0);
    }
}

} // verus!
