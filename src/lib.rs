//! Pin and unpin chat messages referenced by their URL.
//!
//! `url` holds the grammar of a message URL and its parser; `command` holds
//! the decisions of a pin or unpin command, from the raw command text to the
//! reply that the invoking channel receives.
use vstd::prelude::*;

pub mod command;
pub mod url;

verus! {

} // verus!
