//! Text styling helpers that do not depend on the drawing toolkit.

use vstd::prelude::*;

verus! {

/// Text passes through unchanged: inserted Unicode spaces would change
/// wrapping and glyph fallback.
pub fn spaced(s: &str) -> (r: String)
    ensures
        r@ == s@,
{
    crate::text::owned(s)
}

} // verus!
