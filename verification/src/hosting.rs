//! Front-of-house demonstration module. Its actions keep no state; they are
//! named entry points only.

use vstd::prelude::*;

verus! {

/// Puts a guest on the waitlist. The waitlist itself is not tracked, so the
/// action has no observable effect.
pub fn add_to_waitlist() {
}

} // verus!
