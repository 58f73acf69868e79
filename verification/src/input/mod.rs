//! Keyboard state, matching and device bookkeeping.

pub mod keyboard;
pub mod keys;
pub mod udev;
pub mod utils;
pub mod virtuals;

use crate::input::keyboard::{Handled, InputEvent};
use crate::input::udev::{handle_udev, UdevAction, UdevEvent};
use crate::server::signal::{Signal, SignalAction};
use crate::server::Server;
use vstd::prelude::*;

verus! {

/// What one turn of the event loop has received from its three sources.
pub enum Input {
    /// A process signal.
    Signal(Signal),
    /// An event of the hot-plug monitor.
    Udev(UdevEvent),
    /// An event of the keyboard at a device node.
    Device(String, InputEvent),
}

/// What the caller has to do at the end of the turn.
pub enum Step<S> {
    Signal(SignalAction),
    Udev(UdevAction<S>),
    Device(Handled),
}

/// One turn of the event loop: whatever came in is handled to the end
/// before the next is looked at. A signal goes to `handle_signals`, a
/// hot-plug event to `handle_udev` on the registry, a keyboard's event to
/// `listen_keyboard`; the step that comes back is theirs.
pub fn listen_keyboard<S>(server: &mut Server<S>, input: Input) -> (r: Step<S>)
    requires
        old(server).wf(),
    ensures
        final(server).wf(),
        final(server).submaps.submaps == old(server).submaps.submaps,
        input is Signal <==> r is Signal,
        input is Udev <==> r is Udev,
        input is Device <==> r is Device,
        input is Signal ==> {
            &&& r->Signal_0 == crate::server::signal::signal_action(input->Signal_0)
            &&& final(server).grabbing == crate::server::signal::grabbing_after(
                input->Signal_0,
                old(server).grabbing,
            )
            &&& final(server).submaps == old(server).submaps
            &&& final(server).devices == old(server).devices
        },
        input is Udev ==> {
            &&& final(server).grabbing == old(server).grabbing
            &&& final(server).submaps == old(server).submaps
            &&& crate::input::udev::udev_handled(
                input->Udev_0,
                old(server).devices,
                final(server).devices,
                r->Udev_0,
            )
        },
        input is Device ==> crate::input::keyboard::event_handled(
            *old(server),
            *final(server),
            input->Device_0@,
            input->Device_1,
            r->Device_0,
        ),
{
    match input {
        Input::Signal(signal) => Step::Signal(server.handle_signals(signal)),
        Input::Udev(event) => Step::Udev(handle_udev(event, &mut server.devices)),
        Input::Device(devnode, event) => Step::Device(server.listen_keyboard(&devnode, event)),
    }
}

} // verus!
