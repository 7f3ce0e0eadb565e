//! Display width of a cell, as a monospace terminal shows it.

use unicode_width::UnicodeWidthStr;
use vstd::prelude::*;

verus! {

/// The number of terminal columns that `s` occupies, with East Asian wide
/// and ambiguous characters counted as two columns.
pub uninterp spec fn display_width(s: Seq<char>) -> nat;

/// Relies on `unicode_width::UnicodeWidthStr::width_cjk`: the display width
/// of a string depends on its characters alone, and an empty string has
/// width zero.
#[verifier::external_body]
pub(crate) fn cell_width(s: &String) -> (r: usize)
    ensures
        r as nat == display_width(s@),
        s@.len() == 0 ==> r == 0,
{
    s.as_str().width_cjk()
}

} // verus!
