//! The displayed width of text, as the `unicode-width` crate measures it.
use vstd::prelude::*;

verus! {

/// The number of terminal columns `UnicodeWidthStr::width` gives a string.
pub uninterp spec fn display_width(s: Seq<char>) -> usize;

/// ASCII text (control characters included) without carriage returns: each character
/// takes one column.
pub open spec fn is_plain_ascii(s: Seq<char>) -> bool {
    forall|i: int| 0 <= i < s.len() ==> (#[trigger] s[i] as u32) < 0x80 && s[i] != '\r'
}

/// `unicode_width::UnicodeWidthStr::width`. Its result is named by `display_width`.
/// For a string of ASCII characters with no `\r` the crate's fold adds one column per
/// character (the only ASCII exception being `\r` before `\n`), so the width is the
/// character count; nothing else about the width is stated.
#[verifier::external_body]
pub(crate) fn str_width(s: &str) -> (w: usize)
    ensures
        w == display_width(s@),
        is_plain_ascii(s@) ==> w == s@.len(),
{
    unicode_width::UnicodeWidthStr::width(s)
}

} // verus!
