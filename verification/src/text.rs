//! Text in lower case.
//!
//! Names on the command line and in the engine marker are compared without
//! regard to the case of their letters. Turning text into lower case is left
//! to the standard library; of the call nothing is proved.
use vstd::prelude::*;

verus! {

/// The text of `s` in lower case, as `str::to_lowercase` gives it.
pub uninterp spec fn lowercase_text(s: Seq<char>) -> Seq<char>;

/// Calls `str::to_lowercase`. The contract claims that the text returned
/// depends on the characters of `s` alone.
#[verifier::external_body]
pub(crate) fn lowercase(s: &str) -> (lower: String)
    ensures
        lower@ == lowercase_text(s@),
{
    s.to_lowercase()
}

} // verus!
