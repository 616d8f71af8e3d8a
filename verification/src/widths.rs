//! Display widths of characters.
//!
//! Grid placement advances its cursor by the number of terminal columns a
//! character occupies, so that wide characters keep their visual footprint.
//! The width itself comes from the `unicode-width` crate.

use vstd::prelude::*;
use unicode_width::UnicodeWidthChar;

verus! {

/// The number of display columns a character occupies, exactly as
/// `unicode_width::UnicodeWidthChar::width` reports it: `None` for a control
/// character, otherwise a column count. The value is a function of the
/// character alone.
pub uninterp spec fn char_display_cols(c: char) -> Option<usize>;

/// How far the grid cursor advances over a character: its display width,
/// with a control character advancing one cell.
pub open spec fn advance_of(c: char) -> int {
    match char_display_cols(c) {
        Option::None => 1,
        Option::Some(w) => w as int,
    }
}

/// Relies on `unicode_width::UnicodeWidthChar::width`: the result depends on
/// the character alone; it is `None` exactly for control characters,
/// `Some(1)` for printable ASCII, and never more than three columns.
#[verifier::external_body]
pub fn display_cols(c: char) -> (r: Option<usize>)
    ensures
        r == char_display_cols(c),
        r matches Option::Some(w) ==> w <= 3,
        0x20 <= (c as u32) && (c as u32) < 0x7f ==> r == Option::Some(1usize),
        (c as u32) < 0x20 || (0x7f <= (c as u32) && (c as u32) < 0xa0) ==> r is None,
{
    c.width()
}

/// The cursor advance for one character: its display width, or one cell for
/// a control character.
pub fn cursor_advance(c: char) -> (n: usize)
    ensures
        n == advance_of(c),
        n <= 3,
{
    match display_cols(c) {
        Option::None => 1,
        Option::Some(w) => w,
    }
}

} // verus!
