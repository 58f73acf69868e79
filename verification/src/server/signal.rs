//! What a process signal means to the daemon.

use crate::server::Server;
use vstd::prelude::*;

verus! {

/// A signal, by what the daemon makes of it.
#[derive(Debug, Clone, Copy, PartialEq, Eq, Structural)]
pub enum Signal {
    /// `SIGUSR1`
    Usr1,
    /// `SIGUSR2`
    Usr2,
    /// `SIGHUP`
    Hup,
    /// `SIGINT`
    Int,
    /// Any other signal the daemon listens for, by its number.
    Other(i32),
}

/// What the caller has to do on a signal.
#[derive(Debug, Clone, Copy, PartialEq, Eq, Structural)]
pub enum SignalAction {
    /// Release every keyboard.
    Ungrab,
    /// Grab every keyboard again.
    Grab,
    /// Nothing: the signal is kept for a later reload.
    Nothing,
    /// Release every keyboard, then leave with this exit code.
    Exit(i32),
}

/// The exit code of a shutdown by signal.
pub const EXIT_ON_SIGNAL: i32 = 1;

/// What each signal asks for.
pub open spec fn signal_action(signal: Signal) -> SignalAction {
    match signal {
        Signal::Usr1 => SignalAction::Ungrab,
        Signal::Usr2 => SignalAction::Grab,
        Signal::Hup => SignalAction::Nothing,
        Signal::Int => SignalAction::Exit(EXIT_ON_SIGNAL),
        Signal::Other(_) => SignalAction::Exit(EXIT_ON_SIGNAL),
    }
}

/// Whether the keyboards are grabbed once the signal is handled.
pub open spec fn grabbing_after(signal: Signal, grabbing: bool) -> bool {
    match signal {
        Signal::Usr1 => false,
        Signal::Usr2 => true,
        Signal::Hup => grabbing,
        Signal::Int => false,
        Signal::Other(_) => false,
    }
}

impl<S> Server<S> {
    /// Takes one signal in. `SIGUSR1` releases the keyboards and `SIGUSR2`
    /// grabs them again; `SIGHUP` changes nothing; `SIGINT` and every other
    /// signal release the keyboards and end the daemon with exit code 1.
    /// Neither the submaps nor the devices change.
    pub fn handle_signals(&mut self, signal: Signal) -> (r: SignalAction)
        ensures
            r == signal_action(signal),
            final(self).grabbing == grabbing_after(signal, old(self).grabbing),
            final(self).submaps == old(self).submaps,
            final(self).devices == old(self).devices,
    {
        match signal {
            Signal::Usr1 => {
                self.grabbing = false;
                SignalAction::Ungrab
            },
            Signal::Usr2 => {
                self.grabbing = true;
                SignalAction::Grab
            },
            Signal::Hup => SignalAction::Nothing,
            Signal::Int => {
                self.grabbing = false;
                SignalAction::Exit(EXIT_ON_SIGNAL)
            },
            Signal::Other(_) => {
                self.grabbing = false;
                SignalAction::Exit(EXIT_ON_SIGNAL)
            },
        }
    }
}

} // verus!
