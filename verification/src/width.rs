//! Display widths of characters and strings, as the `unicode-width` crate
//! measures them.

use vstd::prelude::*;

verus! {

/// The width `unicode-width`'s lookup tables give a character at or above
/// U+00A0 (the tables are generated data, so the value is named).
pub uninterp spec fn unicode_table_width(c: char) -> usize;

/// What `UnicodeWidthChar::width` returns for `c`, as the crate's source
/// lays it out: `None` for the C0 and C1 control characters, one column for
/// printable ASCII, and the table width for everything else.
pub open spec fn spec_char_width(c: char) -> Option<usize> {
    if (c as u32) < 0x20 {
        None
    } else if (c as u32) < 0x7f {
        Some(1)
    } else if (c as u32) < 0xa0 {
        None
    } else {
        Some(unicode_table_width(c))
    }
}

/// What `UnicodeWidthStr::width` returns for a string holding `s`.
pub uninterp spec fn spec_str_width(s: Seq<char>) -> usize;

/// Columns a character takes when a missing width counts as zero.
pub open spec fn char_cols(c: char) -> nat {
    match spec_char_width(c) {
        Some(w) => w as nat,
        None => 0,
    }
}

/// `UnicodeWidthChar::width`. The crate's source returns `None` for the C0
/// and C1 control characters, `Some(1)` for printable ASCII, and for every
/// other character a width from its lookup tables that is at most 3; the
/// tables themselves are named, not restated.
#[verifier::external_body]
pub(crate) fn char_width(c: char) -> (r: Option<usize>)
    ensures
        r == spec_char_width(c),
        0xa0 <= (c as u32) ==> r == Some(unicode_table_width(c)),
        0xa0 <= (c as u32) ==> r->0 <= 3,
{
    unicode_width::UnicodeWidthChar::width(c)
}

/// `UnicodeWidthStr::width`. The crate measures a string with context
/// (emoji sequences, joiners), so the result is named and not related to
/// the widths of single characters.
#[verifier::external_body]
pub(crate) fn str_width(s: &str) -> (r: usize)
    ensures
        r == spec_str_width(s@),
{
    unicode_width::UnicodeWidthStr::width(s)
}

/// Width of one character, zero for control characters.
pub fn char_cols_exec(c: char) -> (r: usize)
    ensures
        r == char_cols(c),
        r <= 3,
{
    match char_width(c) {
        Some(w) => w,
        None => 0,
    }
}

} // verus!

