//! The code-block elider: an oversized code listing is replaced by a fixed
//! placeholder; anything at or below the threshold passes through unchanged.

use vstd::prelude::*;
use vstd::string::*;

verus! {

/// A code-block payload longer than this many characters is elided.
pub const ELISION_THRESHOLD: usize = 80;

/// The text that replaces an oversized code listing.
pub open spec fn placeholder() -> Seq<char> {
    "listing omitted; please see the original source"@
}

/// What elision does to a code-block payload: payloads longer than the
/// threshold become the placeholder, all others are kept as they are.
pub open spec fn elided(s: Seq<char>) -> Seq<char> {
    if s.len() > ELISION_THRESHOLD {
        placeholder()
    } else {
        s
    }
}

/// Elides a code-block payload: returns the fixed placeholder when the
/// payload exceeds the threshold, and the payload itself otherwise.
pub fn process_code_blocks(literal: &str) -> (out: String)
    ensures
        out@ == elided(literal@),
{
    if literal.unicode_len() > ELISION_THRESHOLD {
        String::from_str("listing omitted; please see the original source")
    } else {
        String::from_str(literal)
    }
}

/// Elision is idempotent: eliding an already elided payload changes nothing,
/// because the placeholder itself stays below the threshold.
pub proof fn lemma_elision_idempotent(s: Seq<char>)
    ensures
        elided(elided(s)) == elided(s),
{
    reveal_strlit("listing omitted; please see the original source");
    assert(placeholder().len() <= ELISION_THRESHOLD);
}

} // verus!
