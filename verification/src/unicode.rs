//! Case mapping of text beyond ASCII, as the standard library's Unicode tables
//! give it.

use crate::text::{ascii_lower, ascii_lower_all};
use vstd::prelude::*;

verus! {

/// Whether every character of `s` is ASCII.
pub open spec fn all_ascii(s: Seq<char>) -> bool {
    forall|i: int| 0 <= i < s.len() ==> (#[trigger] s[i] as u32) < 128
}

/// `c`, with `a` to `z` turned into `A` to `Z`.
pub open spec fn ascii_upper(c: char) -> char {
    if 'a' <= c <= 'z' {
        ((c as u8) - 32) as char
    } else {
        c
    }
}

/// The lowercase form of a text.
pub uninterp spec fn lowercase(s: Seq<char>) -> Seq<char>;

/// The uppercase form of a text.
pub uninterp spec fn uppercase(s: Seq<char>) -> Seq<char>;

/// The lowercase form of one character, which may be several.
pub uninterp spec fn char_lowercase(c: char) -> Seq<char>;

/// `str::to_lowercase`. The result is a function of the text alone; on ASCII text
/// it only turns `A` to `Z` into `a` to `z`. The mapping of other characters is
/// left to its name.
#[verifier::external_body]
pub(crate) fn lower(s: &str) -> (r: String)
    ensures
        r@ == lowercase(s@),
        all_ascii(s@) ==> r@ == ascii_lower_all(s@),
{
    s.to_lowercase()
}

/// `str::to_uppercase`. The result is a function of the text alone; on ASCII text
/// it only turns `a` to `z` into `A` to `Z`. The mapping of other characters is
/// left to its name.
#[verifier::external_body]
pub(crate) fn upper(s: &str) -> (r: String)
    ensures
        r@ == uppercase(s@),
        all_ascii(s@) ==> r@ == s@.map_values(|c: char| ascii_upper(c)),
{
    s.to_uppercase()
}

/// `char::to_lowercase`. The result is a function of the character alone, and holds one
/// or more characters; an ASCII character gives one, itself or its lowercase letter. The
/// mapping of other characters is left to its name.
#[verifier::external_body]
pub(crate) fn lower_char(c: char) -> (r: Vec<char>)
    ensures
        r@ == char_lowercase(c),
        r@.len() >= 1,
        (c as u32) < 128 ==> r@ == seq![ascii_lower(c)],
{
    c.to_lowercase().collect()
}

} // verus!
