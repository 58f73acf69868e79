//! The keyboards the daemon owns, and what a hot-plug event does to them.

use crate::input::utils::{check_device_is_keyboard, is_keyboard, DeviceInfo, KeyboardState};
use vstd::prelude::*;

verus! {

/// No two entries have the same device node.
pub open spec fn nodes_distinct<V>(s: Seq<(String, V)>) -> bool {
    forall|i: int, j: int| 0 <= i < j < s.len() ==> (#[trigger] s[i]).0@ != (#[trigger] s[j]).0@
}

/// The map from device node to value that a list of entries stands for.
pub open spec fn node_map<V>(s: Seq<(String, V)>) -> Map<Seq<char>, V>
    decreases s.len(),
{
    if s.len() == 0 {
        Map::empty()
    } else {
        node_map(s.drop_last()).insert(s.last().0@, s.last().1)
    }
}

/// A list of distinct device nodes and its map hold the same nodes with the
/// same values.
pub proof fn lemma_node_map<V>(s: Seq<(String, V)>)
    requires
        nodes_distinct(s),
    ensures
        forall|i: int| 0 <= i < s.len() ==> node_map(s).dom().contains((#[trigger] s[i]).0@),
        forall|i: int| 0 <= i < s.len() ==> node_map(s)[(#[trigger] s[i]).0@] == s[i].1,
        forall|d: Seq<char>| #[trigger]
            node_map(s).dom().contains(d) ==> exists|i: int| 0 <= i < s.len() && s[i].0@ == d,
    decreases s.len(),
{
    if s.len() > 0 {
        let front = s.drop_last();
        assert(nodes_distinct(front)) by {
            assert forall|i: int, j: int| 0 <= i < j < front.len() implies (#[trigger] front[i]).0@
                != (#[trigger] front[j]).0@ by {
                assert(s[i].0@ != s[j].0@);
            }
        }
        lemma_node_map(front);
        let m = node_map(front);
        assert forall|d: Seq<char>| #[trigger] node_map(s).dom().contains(d) implies exists|i: int|
            0 <= i < s.len() && s[i].0@ == d by {
            if d == s.last().0@ {
                assert(s[s.len() - 1].0@ == d);
            } else {
                assert(m.dom().contains(d));
                let i = choose|i: int| 0 <= i < front.len() && front[i].0@ == d;
                assert(s[i].0@ == d);
            }
        }
        assert forall|i: int| 0 <= i < s.len() implies node_map(s).dom().contains(
            (#[trigger] s[i]).0@,
        ) && node_map(s)[s[i].0@] == s[i].1 by {
            if i < s.len() - 1 {
                assert(front[i] == s[i]);
                assert(s[i].0@ != s[s.len() - 1].0@);
                assert(m.dom().contains(front[i].0@));
            }
        }
    }
}

/// A list of distinct device nodes stands for the map `m` once each entry is
/// in `m` and each node of `m` is in the list.
pub proof fn lemma_node_map_is<V>(s: Seq<(String, V)>, m: Map<Seq<char>, V>)
    requires
        nodes_distinct(s),
        forall|i: int| 0 <= i < s.len() ==> m.dom().contains((#[trigger] s[i]).0@),
        forall|i: int| 0 <= i < s.len() ==> m[(#[trigger] s[i]).0@] == s[i].1,
        forall|d: Seq<char>| #[trigger]
            m.dom().contains(d) ==> exists|i: int| 0 <= i < s.len() && s[i].0@ == d,
    ensures
        node_map(s) == m,
{
    lemma_node_map(s);
    assert forall|d: Seq<char>| node_map(s).dom().contains(d) implies m.dom().contains(d) by {
        let i = choose|i: int| 0 <= i < s.len() && s[i].0@ == d;
        assert(m.dom().contains(s[i].0@));
    }
    assert forall|d: Seq<char>| m.dom().contains(d) implies node_map(s).dom().contains(d)
        && node_map(s)[d] == m[d] by {
        let i = choose|i: int| 0 <= i < s.len() && s[i].0@ == d;
        assert(node_map(s).dom().contains(s[i].0@));
        assert(node_map(s)[s[i].0@] == s[i].1);
        assert(m[s[i].0@] == s[i].1);
    }
    assert(node_map(s) =~= m);
}

/// Taking the entry at `at` out takes its node out of the map.
pub proof fn lemma_node_map_remove<V>(s: Seq<(String, V)>, at: int)
    requires
        nodes_distinct(s),
        0 <= at < s.len(),
    ensures
        nodes_distinct(s.remove(at)),
        node_map(s.remove(at)) == node_map(s).remove(s[at].0@),
{
    let r = s.remove(at);
    let m = node_map(s).remove(s[at].0@);
    assert forall|i: int, j: int| 0 <= i < j < r.len() implies (#[trigger] r[i]).0@ != (
    #[trigger] r[j]).0@ by {
        let pi = if i < at { i } else { i + 1 };
        let pj = if j < at { j } else { j + 1 };
        assert(s[pi].0@ != s[pj].0@);
    }
    lemma_node_map(s);
    assert forall|i: int| 0 <= i < r.len() implies m.dom().contains((#[trigger] r[i]).0@)
        && m[r[i].0@] == r[i].1 by {
        let pi = if i < at { i } else { i + 1 };
        assert(r[i] == s[pi]);
        assert(node_map(s).dom().contains(s[pi].0@));
        if pi < at {
            assert(s[pi].0@ != s[at].0@);
        } else {
            assert(s[at].0@ != s[pi].0@);
        }
    }
    assert forall|d: Seq<char>| #[trigger] m.dom().contains(d) implies exists|i: int|
        0 <= i < r.len() && r[i].0@ == d by {
        let j = choose|j: int| 0 <= j < s.len() && s[j].0@ == d;
        let nj = if j < at { j } else { j - 1 };
        assert(r[nj].0@ == d);
    }
    lemma_node_map_is(r, m);
}

/// Writing a new value at the place of a node keeps the nodes and updates
/// the map at that node.
pub proof fn lemma_node_map_update<V>(s: Seq<(String, V)>, at: int, e: (String, V))
    requires
        nodes_distinct(s),
        0 <= at < s.len(),
        e.0@ == s[at].0@,
    ensures
        nodes_distinct(s.update(at, e)),
        node_map(s.update(at, e)) == node_map(s).insert(s[at].0@, e.1),
{
    let r = s.update(at, e);
    let m = node_map(s).insert(s[at].0@, e.1);
    assert forall|i: int, j: int| 0 <= i < j < r.len() implies (#[trigger] r[i]).0@ != (
    #[trigger] r[j]).0@ by {
        assert(s[i].0@ != s[j].0@);
    }
    lemma_node_map(s);
    assert forall|i: int| 0 <= i < r.len() implies m.dom().contains((#[trigger] r[i]).0@)
        && m[r[i].0@] == r[i].1 by {
        assert(node_map(s).dom().contains(s[i].0@));
        if i < at {
            assert(s[i].0@ != s[at].0@);
        } else if i > at {
            assert(s[at].0@ != s[i].0@);
        }
    }
    assert forall|d: Seq<char>| #[trigger] m.dom().contains(d) implies exists|i: int|
        0 <= i < r.len() && r[i].0@ == d by {
        if d == s[at].0@ {
            assert(r[at].0@ == d);
        } else {
            let j = choose|j: int| 0 <= j < s.len() && s[j].0@ == d;
            assert(r[j].0@ == d);
        }
    }
    lemma_node_map_is(r, m);
}

/// Adding an entry with a new node adds it to the map.
pub proof fn lemma_node_map_push<V>(s: Seq<(String, V)>, e: (String, V))
    requires
        nodes_distinct(s),
        !node_map(s).dom().contains(e.0@),
    ensures
        nodes_distinct(s.push(e)),
        node_map(s.push(e)) == node_map(s).insert(e.0@, e.1),
{
    let r = s.push(e);
    lemma_node_map(s);
    assert forall|i: int, j: int| 0 <= i < j < r.len() implies (#[trigger] r[i]).0@ != (
    #[trigger] r[j]).0@ by {
        if j == s.len() {
            assert(node_map(s).dom().contains(s[i].0@));
        } else {
            assert(s[i].0@ != s[j].0@);
        }
    }
    assert(r.drop_last() =~= s);
}

/// The keyboards the daemon owns: for each device node its event stream
/// and its keyboard state. The two lists name the same nodes in the same
/// order, each once.
pub struct DeviceRegistry<S> {
    pub streams: Vec<(String, S)>,
    pub states: Vec<(String, KeyboardState)>,
}

impl<S> DeviceRegistry<S> {
    /// The two lists name the same device nodes at the same places, no
    /// node twice, and each keyboard state is well formed.
    pub open spec fn wf(&self) -> bool {
        &&& self.streams@.len() == self.states@.len()
        &&& forall|i: int|
            0 <= i < self.streams@.len() ==> (#[trigger] self.streams@[i]).0@ == self.states@[i].0@
        &&& nodes_distinct(self.streams@)
        &&& forall|i: int| 0 <= i < self.states@.len() ==> (#[trigger] self.states@[i]).1.wf()
    }

    /// The event stream of each device node.
    pub open spec fn streams_map(&self) -> Map<Seq<char>, S> {
        node_map(self.streams@)
    }

    /// The keyboard state of each device node.
    pub open spec fn states_map(&self) -> Map<Seq<char>, KeyboardState> {
        node_map(self.states@)
    }

    /// Whether the daemon owns the device at this node.
    pub open spec fn owns(&self, devnode: Seq<char>) -> bool {
        self.streams_map().dom().contains(devnode)
    }

    /// The states name the nodes that the streams name, so they are
    /// distinct too.
    pub proof fn lemma_states_distinct(&self)
        requires
            self.wf(),
        ensures
            nodes_distinct(self.states@),
    {
        assert forall|i: int, j: int| 0 <= i < j < self.states@.len() implies (
        #[trigger] self.states@[i]).0@ != (#[trigger] self.states@[j]).0@ by {
            assert(self.streams@[i].0@ == self.states@[i].0@);
            assert(self.streams@[j].0@ == self.states@[j].0@);
        }
    }

    /// A device has a stream if and only if it has a keyboard state.
    pub proof fn lemma_same_devices(&self)
        requires
            self.wf(),
        ensures
            self.streams_map().dom() == self.states_map().dom(),
            forall|d: Seq<char>| self.states_map().dom().contains(d) ==> self.states_map()[d].wf(),
    {
        self.lemma_states_distinct();
        lemma_node_map(self.streams@);
        lemma_node_map(self.states@);
        assert forall|d: Seq<char>|
            self.streams_map().dom().contains(d) == self.states_map().dom().contains(d) by {
            if self.streams_map().dom().contains(d) {
                let i = choose|i: int| 0 <= i < self.streams@.len() && self.streams@[i].0@ == d;
                assert(self.states@[i].0@ == d);
                assert(self.states_map().dom().contains(self.states@[i].0@));
            }
            if self.states_map().dom().contains(d) {
                let i = choose|i: int| 0 <= i < self.states@.len() && self.states@[i].0@ == d;
                assert(self.streams@[i].0@ == d);
                assert(self.streams_map().dom().contains(self.streams@[i].0@));
            }
        }
        assert(self.streams_map().dom() =~= self.states_map().dom());
        assert forall|d: Seq<char>| self.states_map().dom().contains(d) implies self.states_map()[d].wf() by {
            let i = choose|i: int| 0 <= i < self.states@.len() && self.states@[i].0@ == d;
            assert(self.states_map()[self.states@[i].0@] == self.states@[i].1);
        }
    }

    /// A registry without devices.
    pub fn new() -> (r: Self)
        ensures
            r.wf(),
            r.streams_map() == Map::<Seq<char>, S>::empty(),
            r.states_map() == Map::<Seq<char>, KeyboardState>::empty(),
    {
        DeviceRegistry { streams: Vec::new(), states: Vec::new() }
    }

    /// How many devices the daemon owns.
    pub fn len(&self) -> (n: usize)
        ensures
            n == self.streams@.len(),
    {
        self.streams.len()
    }

    /// The place of a device node in both lists.
    pub fn position(&self, devnode: &String) -> (r: Option<usize>)
        requires
            self.wf(),
        ensures
            r is Some == self.owns(devnode@),
            r is Some ==> r->0 < self.streams@.len() && self.streams@[r->0 as int].0@ == devnode@
                && self.states@[r->0 as int].0@ == devnode@,
    {
        proof {
            lemma_node_map(self.streams@);
        }
        let mut i: usize = 0;
        while i < self.streams.len()
            invariant
                self.wf(),
                i <= self.streams@.len(),
                forall|j: int| 0 <= j < i ==> (#[trigger] self.streams@[j]).0@ != devnode@,
            decreases self.streams@.len() - i,
        {
            if self.streams[i].0 == *devnode {
                proof {
                    lemma_node_map(self.streams@);
                    assert(self.streams_map().dom().contains(self.streams@[i as int].0@));
                }
                return Some(i);
            }
            i += 1;
        }
        None
    }

    /// Whether the daemon owns the device at this node.
    pub fn contains(&self, devnode: &String) -> (r: bool)
        requires
            self.wf(),
        ensures
            r == self.owns(devnode@),
            r == self.states_map().dom().contains(devnode@),
    {
        proof {
            self.lemma_same_devices();
        }
        self.position(devnode).is_some()
    }

    /// Drops the stream and the state of a device; hands back the stream
    /// if there was one.
    pub fn remove(&mut self, devnode: &String) -> (r: Option<S>)
        requires
            old(self).wf(),
        ensures
            final(self).wf(),
            r is Some == old(self).owns(devnode@),
            r is Some ==> r->0 == old(self).streams_map()[devnode@],
            final(self).streams_map() == old(self).streams_map().remove(devnode@),
            final(self).states_map() == old(self).states_map().remove(devnode@),
    {
        proof {
            self.lemma_states_distinct();
            lemma_node_map(self.streams@);
            lemma_node_map(self.states@);
        }
        match self.position(devnode) {
            Some(at) => {
                proof {
                    lemma_node_map_remove(self.streams@, at as int);
                    lemma_node_map_remove(self.states@, at as int);
                }
                let gone = self.streams.remove(at);
                let _ = self.states.remove(at);
                proof {
                    assert forall|i: int| 0 <= i < self.streams@.len() implies (
                    #[trigger] self.streams@[i]).0@ == self.states@[i].0@ by {
                        let pi = if i < at { i } else { i + 1 };
                        assert(old(self).streams@[pi].0@ == old(self).states@[pi].0@);
                    }
                    assert forall|i: int| 0 <= i < self.states@.len() implies (
                    #[trigger] self.states@[i]).1.wf() by {
                        let pi = if i < at { i } else { i + 1 };
                        assert(old(self).states@[pi].1.wf());
                    }
                }
                Some(gone.1)
            },
            None => {
                proof {
                    self.lemma_same_devices();
                    assert(self.streams_map().remove(devnode@) =~= self.streams_map());
                    assert(self.states_map().remove(devnode@) =~= self.states_map());
                }
                None
            },
        }
    }

    /// Registers a device with its stream and a fresh keyboard state. A
    /// device already registered under this node is replaced, and its
    /// stream handed back.
    pub fn insert(&mut self, devnode: String, stream: S) -> (r: Option<S>)
        requires
            old(self).wf(),
        ensures
            final(self).wf(),
            r is Some == old(self).owns(devnode@),
            r is Some ==> r->0 == old(self).streams_map()[devnode@],
            final(self).streams_map() == old(self).streams_map().insert(devnode@, stream),
            final(self).states_map().dom() == old(self).states_map().dom().insert(devnode@),
            final(self).states_map()[devnode@].current.keys@.len() == 0,
            final(self).states_map()[devnode@].previous.keys@.len() == 0,
            forall|d: Seq<char>|
                d != devnode@ && old(self).states_map().dom().contains(d)
                    ==> final(self).states_map()[d] == old(self).states_map()[d],
    {
        let gone = self.remove(&devnode);
        let ghost mid_streams = self.streams@;
        let ghost mid_states = self.states@;
        let state = KeyboardState::new();
        proof {
            self.lemma_states_distinct();
            self.lemma_same_devices();
            lemma_node_map_push(mid_streams, (devnode, stream));
            lemma_node_map_push(mid_states, (devnode, state));
        }
        self.states.push((devnode.clone(), state));
        self.streams.push((devnode, stream));
        proof {
            assert(self.states@[self.states@.len() - 1].0@ == devnode@);
            assert(self.streams_map() =~= old(self).streams_map().insert(devnode@, stream));
            assert(self.states_map().dom() =~= old(self).states_map().dom().insert(devnode@));
        }
        gone
    }
}

/// What happened to a device, as the kernel's hot-plug monitor tells it.
#[derive(Clone, Copy, Debug, PartialEq, Eq, Structural)]
pub enum EventType {
    Add,
    Remove,
    /// Any other change.
    Other,
}

/// One event of the hot-plug monitor.
#[derive(Clone, Debug)]
pub struct UdevEvent {
    /// The device's metadata is complete.
    pub initialized: bool,
    pub event_type: EventType,
    /// The device node, such as `/dev/input/event3`, if the device has one.
    pub devnode: Option<String>,
}

/// Why a hot-plug event changes nothing.
#[derive(Clone, Copy, Debug, PartialEq, Eq, Structural)]
pub enum Skipped {
    /// The device's metadata is not complete yet.
    Uninitialized,
    /// The event names no device node.
    NoDevnode,
    /// The device that went away was not one of the daemon's.
    NotOwned,
    /// The event is neither an arrival nor a departure.
    OtherEvent,
}

/// What a hot-plug event asks of the caller.
pub enum UdevAction<S> {
    /// A device arrived: open it, and register it if it is a keyboard.
    Open(String),
    /// A device of the daemon's went away: its stream and state are out of
    /// the registry, and this is its stream.
    Removed(String, S),
    /// Nothing to do but to log it.
    Skipped(Skipped),
}

/// `r` is what the hot-plug event asks for, and `after` is the registry
/// that the event leaves of `before`.
pub open spec fn udev_handled<S>(
    event: UdevEvent,
    before: DeviceRegistry<S>,
    after: DeviceRegistry<S>,
    r: UdevAction<S>,
) -> bool {
    &&& r == udev_action(event, before)
    &&& if r is Removed {
        &&& after.streams_map() == before.streams_map().remove(event.devnode->0@)
        &&& after.states_map() == before.states_map().remove(event.devnode->0@)
    } else {
        after == before
    }
}

/// What a hot-plug event asks of the caller, the registry being as it is.
pub open spec fn udev_action<S>(event: UdevEvent, registry: DeviceRegistry<S>) -> UdevAction<S> {
    if !event.initialized {
        UdevAction::Skipped(Skipped::Uninitialized)
    } else {
        match event.event_type {
            EventType::Other => UdevAction::Skipped(Skipped::OtherEvent),
            EventType::Add => match event.devnode {
                Some(node) => UdevAction::Open(node),
                None => UdevAction::Skipped(Skipped::NoDevnode),
            },
            EventType::Remove => match event.devnode {
                Some(node) => if registry.owns(node@) {
                    UdevAction::Removed(node, registry.streams_map()[node@])
                } else {
                    UdevAction::Skipped(Skipped::NotOwned)
                },
                None => UdevAction::Skipped(Skipped::NoDevnode),
            },
        }
    }
}

/// Decides what a hot-plug event means for the registry. An event whose
/// device is not initialised or has no node is skipped. An arrival asks the
/// caller to open the device; a departure of an owned device drops its
/// stream and state. Nothing else changes the registry.
pub fn handle_udev<S>(event: UdevEvent, keyboard_stream_map: &mut DeviceRegistry<S>) -> (r:
    UdevAction<S>)
    requires
        old(keyboard_stream_map).wf(),
    ensures
        final(keyboard_stream_map).wf(),
        udev_handled(event, *old(keyboard_stream_map), *final(keyboard_stream_map), r),
{
    if !event.initialized {
        return UdevAction::Skipped(Skipped::Uninitialized);
    }
    match event.event_type {
        EventType::Add => match event.devnode {
            Some(node) => UdevAction::Open(node),
            None => UdevAction::Skipped(Skipped::NoDevnode),
        },
        EventType::Remove => match event.devnode {
            Some(node) => {
                let owned = keyboard_stream_map.contains(&node);
                if owned {
                    match keyboard_stream_map.remove(&node) {
                        Some(stream) => UdevAction::Removed(node, stream),
                        None => UdevAction::Skipped(Skipped::NotOwned),
                    }
                } else {
                    UdevAction::Skipped(Skipped::NotOwned)
                }
            },
            None => UdevAction::Skipped(Skipped::NoDevnode),
        },
        EventType::Other => UdevAction::Skipped(Skipped::OtherEvent),
    }
}

/// Takes in a device that the caller has opened, at the start or after an
/// arrival. The device is registered, with its stream and a fresh keyboard
/// state, if it is a keyboard and grabbing it has not failed; any other
/// device is skipped, and the registry stays as it is.
pub fn register_opened<S>(
    registry: &mut DeviceRegistry<S>,
    node: String,
    info: &DeviceInfo,
    grab_failed: bool,
    stream: S,
) -> (registered: bool)
    requires
        old(registry).wf(),
    ensures
        final(registry).wf(),
        registered == (is_keyboard(*info) && !grab_failed),
        registered ==> {
            &&& final(registry).streams_map() == old(registry).streams_map().insert(node@, stream)
            &&& final(registry).states_map().dom() == old(registry).states_map().dom().insert(
                node@,
            )
            &&& final(registry).states_map()[node@].current.keys@.len() == 0
            &&& final(registry).states_map()[node@].previous.keys@.len() == 0
            &&& forall|d: Seq<char>|
                d != node@ && old(registry).states_map().dom().contains(d)
                    ==> final(registry).states_map()[d] == old(registry).states_map()[d]
        },
        !registered ==> *final(registry) == *old(registry),
{
    if check_device_is_keyboard(info) && !grab_failed {
        let _ = registry.insert(node, stream);
        true
    } else {
        false
    }
}

} // verus!
