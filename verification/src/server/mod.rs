//! The state that the event loop owns, and the decisions it asks for.

pub mod events;
pub mod signal;

use crate::config::check::{fault_of, Fault};
use crate::config::Config;
use crate::error::{LibError, MudrasError};
use crate::input::udev::DeviceRegistry;
use crate::input::utils::{KeyboardState, SubmapState};
use vstd::prelude::*;

verus! {

/// Everything the daemon knows while it runs: the submaps with the active
/// one, the keyboards it owns, and whether it holds them grabbed. `S` is
/// the type of a keyboard's event stream.
pub struct Server<S> {
    pub submaps: SubmapState,
    pub devices: DeviceRegistry<S>,
    /// The keyboards are grabbed: their events reach nobody but the daemon.
    pub grabbing: bool,
}

/// What the user is told about a fault of the configuration.
pub open spec fn fault_message(fault: Fault) -> Seq<char> {
    match fault {
        Fault::MissingMain => "The configuration has no `main` submap."@,
        Fault::DuplicateSubmap => "Two submaps have the same name."@,
        Fault::DuplicateBind => "Two binds of one submap have the same key sequence."@,
        Fault::EmptySequence => "A bind names no key."@,
        Fault::UnsortedSequence => "A key sequence is not sorted by key code."@,
        Fault::InexactBind => "A bind is not exact."@,
        Fault::StaleModifiers => "The modifiers of a submap do not fit its binds."@,
        Fault::UnknownTarget => "A bind enters a submap that does not exist."@,
    }
}

/// What to tell the user about a fault of the configuration.
pub fn describe(fault: Fault) -> (r: &'static str)
    ensures
        r@ == fault_message(fault),
{
    match fault {
        Fault::MissingMain => "The configuration has no `main` submap.",
        Fault::DuplicateSubmap => "Two submaps have the same name.",
        Fault::DuplicateBind => "Two binds of one submap have the same key sequence.",
        Fault::EmptySequence => "A bind names no key.",
        Fault::UnsortedSequence => "A key sequence is not sorted by key code.",
        Fault::InexactBind => "A bind is not exact.",
        Fault::StaleModifiers => "The modifiers of a submap do not fit its binds.",
        Fault::UnknownTarget => "A bind enters a submap that does not exist.",
    }
}

impl<S> Server<S> {
    /// The submaps are well formed with the active one among them, and the
    /// registry holds a state for each stream.
    pub open spec fn wf(&self) -> bool {
        self.submaps.wf() && self.devices.wf()
    }

    /// Starts a daemon on a configuration: in `main`, without devices, with
    /// grabbing on. A configuration that breaks its invariants is refused.
    pub fn new(config: Config) -> (r: Result<Self, MudrasError>)
        ensures
            r is Ok <==> config.wf(),
            r is Ok ==> {
                &&& r->Ok_0.wf()
                &&& r->Ok_0.submaps.submaps == config.submaps
                &&& r->Ok_0.submaps.current@ == "main"@
                &&& r->Ok_0.devices.streams_map() == Map::<Seq<char>, S>::empty()
                &&& r->Ok_0.devices.states_map() == Map::<Seq<char>, KeyboardState>::empty()
                &&& r->Ok_0.grabbing
            },
            r is Err ==> (r->Err_0 matches MudrasError::LibError(e) && e.message@ == fault_message(
                fault_of(config.submaps@)->0,
            )),
    {
        match config.check() {
            Some(fault) => Err(
                MudrasError::LibError(
                    LibError::new(describe(fault), "Mend the configuration file and start again."),
                ),
            ),
            None => Ok(
                Server {
                    submaps: SubmapState::new(config),
                    devices: DeviceRegistry::new(),
                    grabbing: true,
                },
            ),
        }
    }
}

} // verus!
