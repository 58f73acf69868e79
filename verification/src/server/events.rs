//! What the parts of the daemon tell each other.

use vstd::prelude::*;

verus! {

/// A message on the daemon's internal channel.
#[derive(Debug, Clone, Copy, PartialEq, Eq, Structural)]
pub enum Event {
    /// The daemon is shutting down.
    Quit,
    /// A bind has fired.
    Action,
}

} // verus!
