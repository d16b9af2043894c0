//! What this crate takes on trust from code it does not verify: the
//! comparison of string slices, the UUID syntax check and the joining of
//! strings. Every contract in this file is an assumption about the function
//! it names; nothing here is proved.

use itertools::Itertools;
use vstd::prelude::*;

verus! {

/// The characters of each string of a sequence.
pub open spec fn texts(strings: Seq<String>) -> Seq<Seq<char>> {
    strings.map_values(|s: String| s@)
}

/// Assumed of `str`'s `==`: two string slices are equal exactly when they
/// hold the same characters in the same order.
pub assume_specification[ <str as PartialEq>::eq ](left: &str, right: &str) -> (same: bool)
    ensures
        same == (left@ == right@),
;

/// Whether `uuid::Uuid::try_parse` accepts a text. The accepted syntaxes
/// (32 hexadecimal digits, the hyphenated form, the braced form, the URN
/// form) are those of the `uuid` crate and are not restated here.
pub uninterp spec fn uuid_format(text: Seq<char>) -> bool;

/// Calls `uuid::Uuid::try_parse` and reports whether it succeeded. Assumed:
/// the outcome depends on the characters of `text` alone.
#[verifier::external_body]
pub(crate) fn is_uuid(text: &str) -> (accepted: bool)
    ensures
        accepted == uuid_format(text@),
{
    uuid::Uuid::try_parse(text).is_ok()
}

/// The parts of a sequence written one after another with `separator`
/// between each two neighbours.
pub open spec fn joined(parts: Seq<Seq<char>>, separator: Seq<char>) -> Seq<char>
    decreases parts.len(),
{
    if parts.len() == 0 {
        Seq::empty()
    } else if parts.len() == 1 {
        parts[0]
    } else {
        joined(parts.drop_last(), separator) + separator + parts.last()
    }
}

/// Calls `itertools::Itertools::join` on the strings of `parts`. Assumed: the
/// result is the parts in order with `separator` between neighbours, and
/// the empty string for no parts.
#[verifier::external_body]
pub(crate) fn join(parts: &Vec<String>, separator: &str) -> (text: String)
    ensures
        text@ == joined(texts(parts@), separator@),
{
    parts.iter().join(separator)
}

} // verus!
