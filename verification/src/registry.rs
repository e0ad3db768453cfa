//! What the run monitor needs to know of the harnesses: the line a harness
//! prints once it carries on with another model than it was started on.

use vstd::prelude::*;
use crate::text::same_text;

verus! {

/// The harness that tells in its event stream when it answers with another
/// model than the one it was started on.
pub const CODE_HARNESS: &'static str = "code";

/// The harness driving models through pi.
pub const PI_HARNESS: &'static str = "pi";

/// What that harness writes into its event stream when a model refused and
/// it answers with another one.
pub const CODE_REFUSAL_FALLBACK: &'static str = "\"subtype\":\"model_refusal_fallback\"";

/// The refusal fallback marker of the harness named `harness`, if it has one.
pub open spec fn fallback_marker_of(harness: Seq<char>) -> Option<Seq<char>> {
    if harness == CODE_HARNESS@ {
        Some(CODE_REFUSAL_FALLBACK@)
    } else {
        None
    }
}

/// The text `harness` prints once it falls back to another model, if it
/// prints one.
pub fn refusal_fallback_marker(harness: &str) -> (marker: Option<&'static str>)
    ensures
        match marker {
            Some(text) => fallback_marker_of(harness@) == Some(text@),
            None => fallback_marker_of(harness@) is None,
        },
{
    if same_text(harness, CODE_HARNESS) {
        Some(CODE_REFUSAL_FALLBACK)
    } else {
        None
    }
}

} // verus!
