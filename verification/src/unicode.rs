//! Unicode normalization, from the `unicode-normalization` crate.

use crate::text::{all_ascii, is_ascii_char};
use unicode_normalization::char::is_combining_mark;
use unicode_normalization::UnicodeNormalization;
use vstd::prelude::*;

verus! {

/// The compatibility decomposition (Unicode Normalization Form KD) of a
/// string, as `UnicodeNormalization::nfkd` yields it.
pub uninterp spec fn nfkd(s: Seq<char>) -> Seq<char>;

/// Whether a character has `General_Category=Mark`, as
/// `unicode_normalization::char::is_combining_mark` answers.
pub uninterp spec fn combining_mark(c: char) -> bool;

/// Calls `<&str as UnicodeNormalization>::nfkd` and collects the characters.
/// Claims that the result is `nfkd` of the argument and, for an argument made
/// of 7-bit ASCII only, the argument itself: the crate's `decompose` emits a
/// character up to U+007F unchanged ("7-bit ASCII never decomposes"), and its
/// canonical combining class table holds no such character, so no reordering
/// happens.
#[verifier::external_body]
pub(crate) fn nfkd_string(s: &str) -> (r: String)
    ensures
        r@ == nfkd(s@),
        all_ascii(s@) ==> r@ == s@,
{
    s.nfkd().collect::<String>()
}

/// Calls `unicode_normalization::char::is_combining_mark`. Claims that the
/// result is `combining_mark` of the argument and false for a character up
/// to U+007F: the crate's mark table holds no key below U+0300.
#[verifier::external_body]
pub(crate) fn char_is_combining_mark(c: char) -> (r: bool)
    ensures
        r == combining_mark(c),
        is_ascii_char(c) ==> !r,
{
    is_combining_mark(c)
}

} // verus!
