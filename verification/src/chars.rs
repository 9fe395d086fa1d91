//! Classes of characters.

use vstd::prelude::*;

verus! {

/// Whether a character is Unicode white space: it has the `White_Space`
/// property.
pub open spec fn is_space(c: char) -> bool {
    let code = c as int;
    ||| 0x09 <= code <= 0x0d
    ||| code == 0x20
    ||| code == 0x85
    ||| code == 0xa0
    ||| code == 0x1680
    ||| 0x2000 <= code <= 0x200a
    ||| 0x2028 <= code <= 0x2029
    ||| code == 0x202f
    ||| code == 0x205f
    ||| code == 0x3000
}

/// `char::is_whitespace`: whether a character has the `White_Space` property
/// of the Unicode Character Database, which lists the characters of
/// [`is_space`].
pub assume_specification[ char::is_whitespace ](c: char) -> (r: bool)
    ensures
        r == is_space(c),
;

/// Whether a character is a control code: it has the general category `Cc`.
pub open spec fn is_control_code(c: char) -> bool {
    c as int <= 0x1f || 0x7f <= c as int <= 0x9f
}

/// `char::is_control`: whether a character has the general category `Cc`,
/// which holds the characters of [`is_control_code`].
pub assume_specification[ char::is_control ](c: char) -> (r: bool)
    ensures
        r == is_control_code(c),
;

/// Whether a character is a letter or a number, as `char::is_alphanumeric`
/// tells.
pub uninterp spec fn is_letter_or_number(c: char) -> bool;

/// `char::is_alphanumeric`: whether a character is alphabetic or numeric. The
/// answer depends on the character alone.
pub assume_specification[ char::is_alphanumeric ](c: char) -> (r: bool)
    ensures
        r == is_letter_or_number(c),
;

/// A text in lower case, as `str::to_lowercase` gives it.
pub uninterp spec fn lowercase_of(text: Seq<char>) -> Seq<char>;

/// `str::to_lowercase`: the lower-case equivalent of a text. The outcome
/// depends on the text alone.
pub assume_specification[ str::to_lowercase ](s: &str) -> (r: String)
    ensures
        r@ == lowercase_of(s@),
;

} // verus!
