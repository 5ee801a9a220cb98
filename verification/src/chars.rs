//! Character classes and case mapping that come from the standard library.
//!
//! Two classes are small enough to be written out; the contracts of this
//! module say that the library functions decide exactly these. The
//! lowercase equivalent of a text is not restated: it gets a name, and the
//! contract says that the library function computes what that name stands
//! for.

use vstd::prelude::*;

verus! {

/// The characters with the Unicode property `White_Space`: the controls
/// U+0009 to U+000D, the space, U+0085, U+00A0, U+1680, U+2000 to U+200A,
/// U+2028, U+2029, U+202F, U+205F and U+3000.
pub open spec fn white_space(c: char) -> bool {
    ('\u{9}' <= c && c <= '\u{d}') || c == ' ' || c == '\u{85}' || c == '\u{a0}' || c
        == '\u{1680}' || ('\u{2000}' <= c && c <= '\u{200a}') || c == '\u{2028}' || c
        == '\u{2029}' || c == '\u{202f}' || c == '\u{205f}' || c == '\u{3000}'
}

/// The characters of the Unicode general category `Cc`: U+0000 to U+001F
/// and U+007F to U+009F.
pub open spec fn control_code(c: char) -> bool {
    c <= '\u{1f}' || ('\u{7f}' <= c && c <= '\u{9f}')
}

/// The lowercase equivalent of a text, as Unicode defines it.
pub uninterp spec fn lowercase_of(s: Seq<char>) -> Seq<char>;

/// `char::is_whitespace` decides membership in `White_Space`.
pub assume_specification[ char::is_whitespace ](c: char) -> (r: bool)
    ensures
        r == white_space(c),
;

/// `char::is_control` decides membership in the general category `Cc`.
pub assume_specification[ char::is_control ](c: char) -> (r: bool)
    ensures
        r == control_code(c),
;

/// `str::to_lowercase` returns the lowercase equivalent of the whole slice as
/// a new string.
pub assume_specification[ str::to_lowercase ](s: &str) -> (r: String)
    ensures
        r@ == lowercase_of(s@),
;

} // verus!
