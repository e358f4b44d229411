//! An in-memory department roster driven by line-oriented commands.
//!
//! The crate has two verified components: a command parser that turns one
//! line of text into a structured [`parser::Command`], and a roster
//! ([`roster::Departments`]) that maps department names to the people added
//! to them and answers `List` and `All` queries with lexicographically
//! sorted membership reports.

pub mod hosting;
pub mod laws;
pub mod order;
pub mod parser;
pub mod roster;

pub use parser::Command;
pub use roster::{Departments, Report};

use vstd::prelude::*;

verus! {

/// Entry point of the front-of-house demonstration module: guests are put on
/// the waitlist. The action keeps no state and has no observable effect.
pub fn eat_at_restaurant() {
    crate::hosting::add_to_waitlist();
}

} // verus!
