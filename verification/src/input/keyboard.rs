//! What the daemon does with one event of one keyboard.

use crate::input::keys::KeyCode;
use crate::input::udev::{lemma_node_map, lemma_node_map_update};
use crate::input::utils::{
    dispatched, is_release_edge, trigger_action, without_released, Dispatch, KeyState,
    KeyboardState,
};
use crate::server::Server;
use vstd::prelude::*;

verus! {

/// An input event as the kernel hands it out: a type, a code and a value.
#[derive(Clone, Copy, Debug, PartialEq, Eq, Structural)]
pub struct InputEvent {
    pub event_type: u16,
    pub code: u16,
    pub value: i32,
}

/// The kernel's type number of key events.
pub const EV_KEY: u16 = 0x01;

/// The kernel's type number of switch events.
pub const EV_SW: u16 = 0x05;

/// What kind of event an input event is, as far as the daemon cares.
#[derive(Clone, Copy, Debug, PartialEq, Eq, Structural)]
pub enum EventSummary {
    /// A key with the event's value: 0 up, 1 down, 2 held.
    Key(KeyCode, i32),
    /// A switch, such as the lid.
    Switch,
    /// Anything else.
    Other,
}

/// The kind of an event, by its type number.
pub open spec fn summary_of(event: InputEvent) -> EventSummary {
    if event.event_type == EV_KEY {
        EventSummary::Key(event.code, event.value)
    } else if event.event_type == EV_SW {
        EventSummary::Switch
    } else {
        EventSummary::Other
    }
}

/// evdev's `InputEvent::destructure`, on an event built with
/// `InputEvent::new` from the three numbers. evdev tells the kinds apart by
/// the type number alone, and hands a key event's code and value on as they
/// are.
#[verifier::external_body]
fn destructure(event: &InputEvent) -> (r: EventSummary)
    ensures
        r == summary_of(*event),
{
    match evdev::InputEvent::new(event.event_type, event.code, event.value).destructure() {
        evdev::EventSummary::Key(_, key, value) => EventSummary::Key(key.code(), value),
        evdev::EventSummary::Switch(..) => EventSummary::Switch,
        _ => EventSummary::Other,
    }
}

/// The state that a key event's value stands for: 1 is a press, 0 a
/// release; anything else says nothing of the key.
pub open spec fn key_state_of(value: i32) -> KeyState {
    if value == 1 {
        KeyState::Pressed
    } else if value == 0 {
        KeyState::Released
    } else {
        KeyState::Undefined
    }
}

/// The state that a key event's value stands for.
pub fn key_state(value: i32) -> (r: KeyState)
    ensures
        r == key_state_of(value),
{
    if value == 1 {
        KeyState::Pressed
    } else if value == 0 {
        KeyState::Released
    } else {
        KeyState::Undefined
    }
}

/// The virtual device on which the raw event is to be emitted.
#[derive(Clone, Copy, Debug, PartialEq, Eq, Structural)]
pub enum Emit {
    /// The event is swallowed.
    Nothing,
    /// The virtual keyboard.
    Keyboard,
    /// The virtual switches.
    Switch,
}

/// What the caller has to do for one event of a keyboard.
#[derive(Debug)]
pub struct Handled {
    /// Where the raw event goes.
    pub emit: Emit,
    /// The bind that fired, by its place in the submap that was active when
    /// the event came.
    pub fired: Option<usize>,
    /// The shell commands to start, in order.
    pub shell: Vec<String>,
    /// The submaps that the bind tried to enter and that do not exist.
    pub unknown: Vec<String>,
    /// The event is a key event of a device that the registry does not
    /// hold: it is dropped, and worth an error in the log.
    pub orphan: bool,
}

impl Handled {
    /// Nothing fires and nothing is amiss.
    pub open spec fn quiet(&self) -> bool {
        &&& self.fired is None
        &&& self.shell@.len() == 0
        &&& self.unknown@.len() == 0
        &&& !self.orphan
    }

    /// The event goes to `emit` and nothing else happens.
    fn pass(emit: Emit) -> (r: Self)
        ensures
            r.quiet(),
            r.emit == emit,
    {
        Handled { emit, fired: None, shell: Vec::new(), unknown: Vec::new(), orphan: false }
    }
}

/// `after` is `before` with one key event taken in.
pub open spec fn key_taken(
    before: KeyboardState,
    after: KeyboardState,
    code: KeyCode,
    state: KeyState,
) -> bool {
    &&& after.wf()
    &&& after.previous.keys@ == before.current.keys@
    &&& after.current@ == without_released(before.current@).insert(code, state)
}

/// The state that a key event writes: an auto-repeat, whose value is 2,
/// says once more that the key is down.
pub open spec fn written_state(value: i32) -> KeyState {
    if value == 2 {
        KeyState::Pressed
    } else {
        key_state_of(value)
    }
}

/// `r` is what the event of the keyboard at `devnode` asks for, and
/// `after` is the daemon's state that the event leaves of `before`.
pub open spec fn event_handled<S>(
    before: Server<S>,
    after: Server<S>,
    devnode: Seq<char>,
    event: InputEvent,
    r: Handled,
) -> bool {
    &&& after.grabbing == before.grabbing
    &&& after.submaps.submaps == before.submaps.submaps
    &&& after.devices.streams == before.devices.streams
    &&& after.devices.states_map().dom() == before.devices.states_map().dom()
    &&& forall|d: Seq<char>|
        d != devnode && before.devices.states_map().dom().contains(d)
            ==> after.devices.states_map()[d] == before.devices.states_map()[d]
    &&& match summary_of(event) {
        EventSummary::Switch => {
            &&& after == before
            &&& r.quiet()
            &&& r.emit == Emit::Switch
        },
        EventSummary::Other => {
            &&& after == before
            &&& r.quiet()
            &&& r.emit == Emit::Keyboard
        },
        EventSummary::Key(code, value) => {
            let state = written_state(value);
            if state == KeyState::Undefined {
                &&& after == before
                &&& r.quiet()
                &&& r.emit == Emit::Nothing
            } else if !before.devices.owns(devnode) {
                &&& after == before
                &&& r.emit == Emit::Nothing
                &&& r.orphan
                &&& r.fired is None
                &&& r.shell@.len() == 0
                &&& r.unknown@.len() == 0
            } else {
                let keyboard = after.devices.states_map()[devnode];
                &&& key_taken(before.devices.states_map()[devnode], keyboard, code, state)
                &&& !r.orphan
                &&& if before.grabbing {
                    &&& r.emit != Emit::Switch
                    &&& dispatched(
                        before.submaps,
                        after.submaps,
                        keyboard,
                        state,
                        value == 2,
                        (Dispatch {
                            forward: r.emit == Emit::Keyboard,
                            fired: r.fired,
                            shell: r.shell,
                            unknown: r.unknown,
                        }),
                    )
                } else {
                    &&& after.submaps == before.submaps
                    &&& r.quiet()
                    &&& r.emit == Emit::Nothing
                }
            }
        },
    }
}

impl<S> Server<S> {
    /// Takes one event of the keyboard at `devnode` in.
    ///
    /// A switch event goes to the virtual switches and an event that is
    /// neither key nor switch to the virtual keyboard, whatever the state of
    /// the daemon. A key event first updates the keyboard's state, then is
    /// held against the binds of the active submap: see `decide`. A key
    /// event with a value other than 0, 1 and 2 is dropped, and so is one of
    /// a device that the registry does not hold.
    ///
    /// While the keyboards are released, the applications read the keys
    /// directly: the keyboard's state is kept up, but no key event is
    /// forwarded and no bind fires.
    pub fn listen_keyboard(&mut self, devnode: &String, event: InputEvent) -> (r: Handled)
        requires
            old(self).wf(),
        ensures
            final(self).wf(),
            event_handled(*old(self), *final(self), devnode@, event, r),
            r.fired is Some ==> r.fired->0 < old(self).submaps.active().binds@.len(),
            r.fired is Some && old(self).submaps.active().binds@[r.fired->0 as int].args.swallow
                && !is_release_edge(
                final(self).devices.states_map()[devnode@],
                written_state(event.value),
            ) ==> r.emit == Emit::Nothing,
    {
        match destructure(&event) {
            EventSummary::Switch => Handled::pass(Emit::Switch),
            EventSummary::Other => Handled::pass(Emit::Keyboard),
            EventSummary::Key(code, value) => {
                let repeat = value == 2;
                let state = if repeat {
                    KeyState::Pressed
                } else {
                    key_state(value)
                };
                if state == KeyState::Undefined {
                    return Handled::pass(Emit::Nothing);
                }
                match self.devices.position(devnode) {
                    None => Handled {
                        emit: Emit::Nothing,
                        fired: None,
                        shell: Vec::new(),
                        unknown: Vec::new(),
                        orphan: true,
                    },
                    Some(at) => {
                        let ghost before = self.devices.states@;
                        proof {
                            self.devices.lemma_states_distinct();
                            self.devices.lemma_same_devices();
                            lemma_node_map(before);
                        }
                        self.devices.states[at].1.update(code, state);
                        proof {
                            let after = self.devices.states@;
                            assert(after =~= before.update(at as int, after[at as int]));
                            lemma_node_map_update(before, at as int, after[at as int]);
                            lemma_node_map(after);
                            assert(self.devices.wf());
                            assert(self.devices.states_map().dom()
                                =~= old(self).devices.states_map().dom());
                        }
                        if self.grabbing {
                            let d = trigger_action(
                                &mut self.submaps,
                                &self.devices.states[at].1,
                                &state,
                                repeat,
                            );
                            Handled {
                                emit: if d.forward {
                                    Emit::Keyboard
                                } else {
                                    Emit::Nothing
                                },
                                fired: d.fired,
                                shell: d.shell,
                                unknown: d.unknown,
                                orphan: false,
                            }
                        } else {
                            Handled::pass(Emit::Nothing)
                        }
                    },
                }
            },
        }
    }
}

} // verus!
