//! The keys of each keyboard, the active submap, and the decision that one
//! key event calls for when the two are held against each other.

use crate::config::utils::is_text;
use crate::config::{
    copy_commands, find_bind, find_submap, is_release_form, submap_index, submaps_wf, Command,
    Config, Keyword, Submap, Submaps,
};
use crate::input::keys::KeyCode;
use crate::input::virtuals::{is_virtual_name, VIRTUAL_KEYBOARD, VIRTUAL_POINTER, VIRTUAL_SWITCH};
use vstd::prelude::*;

verus! {

/// What the daemon reads of an input device to tell what it is.
#[derive(Clone, Debug, PartialEq)]
pub struct DeviceInfo {
    /// The name the device gives itself.
    pub name: Option<String>,
    /// The device has an Enter key.
    pub has_key_enter: bool,
    /// The device has an absolute X axis.
    pub has_abs_x: bool,
}

/// A keyboard is a device with an Enter key that is not one of the
/// daemon's own virtual devices.
pub open spec fn is_keyboard(device: DeviceInfo) -> bool {
    device.has_key_enter && !(device.name is Some && is_virtual_name(device.name->0@))
}

/// Whether a device is a keyboard for the daemon to listen to.
pub fn check_device_is_keyboard(device: &DeviceInfo) -> (r: bool)
    ensures
        r == is_keyboard(*device),
{
    if device.has_key_enter {
        match &device.name {
            Some(name) => !(is_text(name, VIRTUAL_KEYBOARD) || is_text(name, VIRTUAL_SWITCH)
                || is_text(name, VIRTUAL_POINTER)),
            None => true,
        }
    } else {
        false
    }
}

/// A pointer is a device with an absolute X axis that is not the daemon's
/// own virtual pointer.
pub fn check_device_is_pointer(device: &DeviceInfo) -> (r: bool)
    ensures
        r == (device.has_abs_x && !(device.name is Some && device.name->0@ == VIRTUAL_POINTER@)),
{
    if device.has_abs_x {
        match &device.name {
            Some(name) => !is_text(name, VIRTUAL_POINTER),
            None => true,
        }
    } else {
        false
    }
}

/// What is known of one key.
#[derive(Clone, Copy, Debug, PartialEq, Eq, Hash, Structural)]
pub enum KeyState {
    Pressed,
    Released,
    /// The value of a slot that no event has written yet.
    Undefined,
}

impl Default for KeyState {
    fn default() -> (r: Self)
        ensures
            r == KeyState::Undefined,
    {
        KeyState::Undefined
    }
}

/// One key with its state, as chords and keyboard snapshots list them.
pub type KeyEntry = (KeyCode, KeyState);

/// Key codes grow strictly along the sequence, so no key occurs twice.
pub open spec fn strictly_ascending(s: Seq<KeyEntry>) -> bool {
    forall|i: int, j: int| 0 <= i < j < s.len() ==> s[i].0 < s[j].0
}

/// The map that a list of entries stands for; a later entry overrides an
/// earlier one for the same key.
pub open spec fn entries_map(s: Seq<KeyEntry>) -> Map<KeyCode, KeyState>
    decreases s.len(),
{
    if s.len() == 0 {
        Map::empty()
    } else {
        entries_map(s.drop_last()).insert(s.last().0, s.last().1)
    }
}

/// A strictly ascending list and its map hold the same keys with the same
/// states, and as many of them.
pub proof fn lemma_entries_map(s: Seq<KeyEntry>)
    requires
        strictly_ascending(s),
    ensures
        entries_map(s).dom().finite(),
        entries_map(s).dom().len() == s.len(),
        forall|i: int| 0 <= i < s.len() ==> #[trigger] entries_map(s).dom().contains(s[i].0),
        forall|i: int| 0 <= i < s.len() ==> entries_map(s)[#[trigger] s[i].0] == s[i].1,
        forall|k: KeyCode| #[trigger]
            entries_map(s).dom().contains(k) ==> exists|i: int| 0 <= i < s.len() && s[i].0 == k,
    decreases s.len(),
{
    if s.len() > 0 {
        let front = s.drop_last();
        lemma_entries_map(front);
        let m = entries_map(front);
        assert forall|k: KeyCode| #[trigger] entries_map(s).dom().contains(k) implies exists|i: int|
            0 <= i < s.len() && s[i].0 == k by {
            if k == s.last().0 {
                assert(s[s.len() - 1].0 == k);
            } else {
                assert(m.dom().contains(k));
                let i = choose|i: int| 0 <= i < front.len() && front[i].0 == k;
                assert(s[i].0 == k);
            }
        }
        assert(!m.dom().contains(s.last().0)) by {
            if m.dom().contains(s.last().0) {
                let i = choose|i: int| 0 <= i < front.len() && front[i].0 == s.last().0;
                assert(s[i].0 < s[s.len() - 1].0);
            }
        }
        assert forall|i: int| 0 <= i < s.len() implies entries_map(s)[#[trigger] s[i].0]
            == s[i].1 by {
            if i < s.len() - 1 {
                assert(front[i] == s[i]);
                assert(s[i].0 < s[s.len() - 1].0);
            }
        }
        assert forall|i: int| 0 <= i < s.len() implies #[trigger] entries_map(s).dom().contains(
            s[i].0,
        ) by {
            if i < s.len() - 1 {
                assert(front[i] == s[i]);
            }
        }
    }
}

/// Two strictly ascending lists that stand for the same map are the same
/// list: what is said of the map of a well-formed state is said of its list.
pub proof fn lemma_entries_canonical(a: Seq<KeyEntry>, b: Seq<KeyEntry>)
    requires
        strictly_ascending(a),
        strictly_ascending(b),
        entries_map(a) == entries_map(b),
    ensures
        a == b,
    decreases a.len(),
{
    lemma_entries_map(a);
    lemma_entries_map(b);
    if a.len() > 0 {
        // The last entry of each list holds the greatest key of the map.
        let ka = a.last().0;
        let kb = b.last().0;
        assert(entries_map(b).dom().contains(a[a.len() - 1].0));
        assert(entries_map(a).dom().contains(b[b.len() - 1].0));
        let ib = choose|i: int| 0 <= i < b.len() && b[i].0 == ka;
        let ia = choose|i: int| 0 <= i < a.len() && a[i].0 == kb;
        assert(ka == kb);
        assert(entries_map(a)[a[a.len() - 1].0] == a.last().1);
        assert(entries_map(b)[b[b.len() - 1].0] == b.last().1);
        let fa = a.drop_last();
        let fb = b.drop_last();
        lemma_entries_map(fa);
        lemma_entries_map(fb);
        assert(entries_map(fa) =~= entries_map(fb)) by {
            assert forall|k: KeyCode| entries_map(fa).dom().contains(k) == entries_map(
                fb,
            ).dom().contains(k) by {
                if entries_map(fa).dom().contains(k) {
                    let i = choose|i: int| 0 <= i < fa.len() && fa[i].0 == k;
                    assert(a[i].0 < a[a.len() - 1].0);
                    assert(entries_map(a).dom().contains(k));
                }
                if entries_map(fb).dom().contains(k) {
                    let i = choose|i: int| 0 <= i < fb.len() && fb[i].0 == k;
                    assert(b[i].0 < b[b.len() - 1].0);
                    assert(entries_map(b).dom().contains(k));
                }
            }
            assert forall|k: KeyCode| entries_map(fa).dom().contains(k) implies entries_map(fa)[k]
                == entries_map(fb)[k] by {
                assert(k != ka) by {
                    let i = choose|i: int| 0 <= i < fa.len() && fa[i].0 == k;
                    assert(a[i].0 < a[a.len() - 1].0);
                }
                assert(entries_map(a)[k] == entries_map(fa)[k]);
                assert(entries_map(b)[k] == entries_map(fb)[k]);
            }
        }
        lemma_entries_canonical(fa, fb);
        assert(a =~= fa.push(a.last()));
        assert(b =~= fb.push(b.last()));
    } else {
        assert(b.len() == 0);
        assert(a =~= b);
    }
}

/// A strictly ascending list stands for the map `m` once each entry is in
/// `m` and each key of `m` is in the list.
pub proof fn lemma_entries_map_is(s: Seq<KeyEntry>, m: Map<KeyCode, KeyState>)
    requires
        strictly_ascending(s),
        forall|i: int| 0 <= i < s.len() ==> m.dom().contains(#[trigger] s[i].0),
        forall|i: int| 0 <= i < s.len() ==> m[#[trigger] s[i].0] == s[i].1,
        forall|k: KeyCode| #[trigger]
            m.dom().contains(k) ==> exists|i: int| 0 <= i < s.len() && s[i].0 == k,
    ensures
        entries_map(s) == m,
{
    lemma_entries_map(s);
    assert forall|k: KeyCode| entries_map(s).dom().contains(k) implies m.dom().contains(k) by {
        let i = choose|i: int| 0 <= i < s.len() && s[i].0 == k;
        assert(m.dom().contains(s[i].0));
    }
    assert forall|k: KeyCode| m.dom().contains(k) implies entries_map(s).dom().contains(k)
        && entries_map(s)[k] == m[k] by {
        let i = choose|i: int| 0 <= i < s.len() && s[i].0 == k;
        assert(entries_map(s).dom().contains(s[i].0));
        assert(entries_map(s)[s[i].0] == s[i].1);
        assert(m[s[i].0] == s[i].1);
    }
    assert(entries_map(s) =~= m);
}

/// Writing a new state at the place of a key keeps the list ascending and
/// updates the map at that key.
proof fn lemma_overwrite_entry(before: Seq<KeyEntry>, i: int, state: KeyState)
    requires
        strictly_ascending(before),
        0 <= i < before.len(),
    ensures
        strictly_ascending(before.update(i, (before[i].0, state))),
        entries_map(before.update(i, (before[i].0, state))) == entries_map(before).insert(
            before[i].0,
            state,
        ),
{
    let key = before[i].0;
    let after = before.update(i, (key, state));
    let m = entries_map(before).insert(key, state);
    assert forall|a: int, b: int| 0 <= a < b < after.len() implies after[a].0 < after[b].0 by {
        assert(before[a].0 < before[b].0);
    }
    lemma_entries_map(before);
    assert forall|j: int| 0 <= j < after.len() implies m.dom().contains(#[trigger] after[j].0)
        && m[after[j].0] == after[j].1 by {
        assert(entries_map(before).dom().contains(before[j].0));
        assert(entries_map(before)[before[j].0] == before[j].1);
        if j != i {
            if j < i {
                assert(before[j].0 < before[i].0);
            } else {
                assert(before[i].0 < before[j].0);
            }
        }
    }
    assert forall|k: KeyCode| #[trigger] m.dom().contains(k) implies exists|j: int|
        0 <= j < after.len() && after[j].0 == k by {
        if k == key {
            assert(after[i].0 == k);
        } else {
            let j = choose|j: int| 0 <= j < before.len() && before[j].0 == k;
            assert(after[j].0 == k);
        }
    }
    lemma_entries_map_is(after, m);
}

/// Putting a missing key at its place keeps the list ascending and adds the
/// key to the map.
proof fn lemma_insert_entry(before: Seq<KeyEntry>, i: int, key: KeyCode, state: KeyState)
    requires
        strictly_ascending(before),
        0 <= i <= before.len(),
        forall|j: int| 0 <= j < i ==> before[j].0 < key,
        forall|j: int| i <= j < before.len() ==> before[j].0 > key,
    ensures
        strictly_ascending(before.insert(i, (key, state))),
        entries_map(before.insert(i, (key, state))) == entries_map(before).insert(key, state),
{
    let after = before.insert(i, (key, state));
    let m = entries_map(before).insert(key, state);
    assert forall|a: int, b: int| 0 <= a < b < after.len() implies after[a].0 < after[b].0 by {
        let pa = if a < i { a } else { a - 1 };
        let pb = if b < i { b } else { b - 1 };
        if a != i && b != i {
            assert(before[pa].0 < before[pb].0);
        }
    }
    lemma_entries_map(before);
    assert forall|j: int| 0 <= j < after.len() implies m.dom().contains(#[trigger] after[j].0)
        && m[after[j].0] == after[j].1 by {
        if j != i {
            let pj = if j < i { j } else { j - 1 };
            assert(after[j] == before[pj]);
            assert(entries_map(before).dom().contains(before[pj].0));
            assert(entries_map(before)[before[pj].0] == before[pj].1);
        }
    }
    assert forall|k: KeyCode| #[trigger] m.dom().contains(k) implies exists|j: int|
        0 <= j < after.len() && after[j].0 == k by {
        if k == key {
            assert(after[i].0 == k);
        } else {
            let j = choose|j: int| 0 <= j < before.len() && before[j].0 == k;
            let nj = if j < i { j } else { j + 1 };
            assert(after[nj].0 == k);
        }
    }
    lemma_entries_map_is(after, m);
}

/// The states of the keys of one keyboard, kept as a list that ascends
/// strictly by key code. Read as a map, it is the view.
#[derive(Clone, Debug, PartialEq)]
pub struct State {
    pub keys: Vec<KeyEntry>,
}

impl View for State {
    type V = Map<KeyCode, KeyState>;

    open spec fn view(&self) -> Map<KeyCode, KeyState> {
        entries_map(self.keys@)
    }
}

/// The map without the keys whose state is `Released`.
pub open spec fn without_released(m: Map<KeyCode, KeyState>) -> Map<KeyCode, KeyState> {
    m.remove_keys(Set::new(|k: KeyCode| m.dom().contains(k) && m[k] == KeyState::Released))
}

impl Default for State {
    fn default() -> (r: Self)
        ensures
            r.wf(),
            r.keys@ == Seq::<KeyEntry>::empty(),
            r@ == Map::<KeyCode, KeyState>::empty(),
    {
        State::new()
    }
}

impl State {
    /// The list ascends strictly, so it is the one list that stands for its map.
    pub open spec fn wf(&self) -> bool {
        strictly_ascending(self.keys@)
    }

    /// A keyboard on which no key has been seen.
    pub fn new() -> (r: Self)
        ensures
            r.wf(),
            r.keys@ == Seq::<KeyEntry>::empty(),
            r@ == Map::<KeyCode, KeyState>::empty(),
    {
        State { keys: Vec::new() }
    }

    /// How many keys the state holds.
    pub fn len(&self) -> (n: usize)
        requires
            self.wf(),
        ensures
            n == self.keys@.len(),
            n == self@.dom().len(),
    {
        proof {
            lemma_entries_map(self.keys@);
        }
        self.keys.len()
    }

    /// A copy of the state.
    pub fn snapshot(&self) -> (r: Self)
        ensures
            r.keys@ == self.keys@,
            r@ == self@,
    {
        let mut keys: Vec<KeyEntry> = Vec::new();
        let mut i: usize = 0;
        while i < self.keys.len()
            invariant
                i <= self.keys@.len(),
                keys@ == self.keys@.take(i as int),
            decreases self.keys@.len() - i,
        {
            keys.push(self.keys[i]);
            assert(self.keys@.take(i + 1) =~= self.keys@.take(i as int).push(self.keys@[i as int]));
            i += 1;
        }
        assert(self.keys@.take(i as int) =~= self.keys@);
        State { keys }
    }

    /// The index of the first entry whose key is not below `key`.
    fn position(&self, key: KeyCode) -> (i: usize)
        requires
            self.wf(),
        ensures
            i <= self.keys@.len(),
            forall|j: int| 0 <= j < i ==> self.keys@[j].0 < key,
            forall|j: int| i <= j < self.keys@.len() ==> self.keys@[j].0 >= key,
    {
        let mut i: usize = 0;
        while i < self.keys.len() && self.keys[i].0 < key
            invariant
                i <= self.keys@.len(),
                forall|j: int| 0 <= j < i ==> self.keys@[j].0 < key,
            decreases self.keys@.len() - i,
        {
            i += 1;
        }
        assert forall|j: int| i <= j < self.keys@.len() implies self.keys@[j].0 >= key by {
            if i < j {
                assert(self.keys@[i as int].0 < self.keys@[j].0);
            }
        }
        i
    }

    /// The state of `key`, if the keyboard state holds the key.
    pub fn get(&self, key: KeyCode) -> (r: Option<KeyState>)
        requires
            self.wf(),
        ensures
            r is Some <==> self@.dom().contains(key),
            r is Some ==> r->0 == self@[key],
    {
        proof {
            lemma_entries_map(self.keys@);
        }
        let i = self.position(key);
        if i < self.keys.len() && self.keys[i].0 == key {
            assert(self@.dom().contains(self.keys@[i as int].0));
            Some(self.keys[i].1)
        } else {
            assert(!self@.dom().contains(key)) by {
                if self@.dom().contains(key) {
                    let j = choose|j: int| 0 <= j < self.keys@.len() && self.keys@[j].0 == key;
                    assert(j < i || j >= i);
                }
            }
            None
        }
    }

    /// Whether the state holds `key`, pressed or released.
    pub fn contains_key(&self, key: KeyCode) -> (r: bool)
        requires
            self.wf(),
        ensures
            r == self@.dom().contains(key),
    {
        self.get(key).is_some()
    }

    /// Writes the state of `key`, over the one it had if it had one.
    pub fn insert(&mut self, key: KeyCode, state: KeyState)
        requires
            old(self).wf(),
        ensures
            final(self).wf(),
            final(self)@ == old(self)@.insert(key, state),
    {
        let i = self.position(key);
        let ghost before = self.keys@;
        if i < self.keys.len() && self.keys[i].0 == key {
            self.keys.set(i, (key, state));
            proof {
                lemma_overwrite_entry(before, i as int, state);
            }
        } else {
            self.keys.insert(i, (key, state));
            proof {
                lemma_insert_entry(before, i as int, key, state);
            }
        }
    }

    /// The state without the keys that are `Released`.
    pub fn pruned(&self) -> (r: Self)
        requires
            self.wf(),
        ensures
            r.wf(),
            r@ == without_released(self@),
    {
        let mut keys: Vec<KeyEntry> = Vec::new();
        let mut i: usize = 0;
        // `from[j]` is where the j-th kept entry stood.
        let ghost mut from: Seq<int> = Seq::empty();
        while i < self.keys.len()
            invariant
                i <= self.keys@.len(),
                self.wf(),
                from.len() == keys@.len(),
                forall|j: int| 0 <= j < from.len() ==> 0 <= #[trigger] from[j] < i,
                forall|j: int| 0 <= j < from.len() ==> keys@[j] == self.keys@[#[trigger] from[j]],
                forall|a: int, b: int| 0 <= a < b < from.len() ==> from[a] < from[b],
                forall|j: int| 0 <= j < keys@.len() ==> (#[trigger] keys@[j]).1
                    != KeyState::Released,
                forall|p: int|
                    0 <= p < i && (#[trigger] self.keys@[p]).1 != KeyState::Released
                        ==> exists|j: int| 0 <= j < from.len() && from[j] == p,
            decreases self.keys@.len() - i,
        {
            let entry = self.keys[i];
            if entry.1 != KeyState::Released {
                keys.push(entry);
                proof {
                    let ghost grown = from.push(i as int);
                    assert forall|p: int|
                        0 <= p < i + 1 && (#[trigger] self.keys@[p]).1
                            != KeyState::Released implies exists|j: int|
                        0 <= j < grown.len() && grown[j] == p by {
                        if p < i {
                            let j = choose|j: int| 0 <= j < from.len() && from[j] == p;
                            assert(grown[j] == p);
                        } else {
                            assert(grown[from.len() as int] == p);
                        }
                    }
                    from = grown;
                }
            }
            i += 1;
        }
        let r = State { keys };
        proof {
            let kept = r.keys@;
            let all = self.keys@;
            assert(strictly_ascending(kept)) by {
                assert forall|a: int, b: int| 0 <= a < b < kept.len() implies kept[a].0
                    < kept[b].0 by {
                    assert(from[a] < from[b]);
                    assert(all[from[a]].0 < all[from[b]].0);
                }
            }
            lemma_entries_map(kept);
            lemma_entries_map(all);
            let target = without_released(self@);
            assert forall|k: KeyCode| entries_map(kept).dom().contains(k) == target.dom().contains(
                k,
            ) by {
                if entries_map(kept).dom().contains(k) {
                    let j = choose|j: int| 0 <= j < kept.len() && kept[j].0 == k;
                    assert(kept[j] == all[from[j]]);
                    assert(entries_map(all).dom().contains(all[from[j]].0));
                    assert(entries_map(all)[all[from[j]].0] == all[from[j]].1);
                }
                if target.dom().contains(k) {
                    let p = choose|p: int| 0 <= p < all.len() && all[p].0 == k;
                    assert(entries_map(all)[all[p].0] == all[p].1);
                    let j = choose|j: int| 0 <= j < from.len() && from[j] == p;
                    assert(entries_map(kept).dom().contains(kept[j].0));
                }
            }
            assert forall|k: KeyCode| entries_map(kept).dom().contains(k) implies entries_map(
                kept,
            )[k] == target[k] by {
                let j = choose|j: int| 0 <= j < kept.len() && kept[j].0 == k;
                assert(entries_map(kept)[kept[j].0] == kept[j].1);
                assert(kept[j] == all[from[j]]);
                assert(entries_map(all)[all[from[j]].0] == all[from[j]].1);
            }
            assert(entries_map(kept) =~= target);
        }
        r
    }
}

/// One keyboard's keys as they are now and as they were before the last
/// event.
#[derive(Debug, PartialEq)]
pub struct KeyboardState {
    /// The keys after the last event.
    pub current: State,
    /// The keys just before the last event.
    pub previous: State,
}

impl Default for KeyboardState {
    fn default() -> (r: Self)
        ensures
            r.wf(),
            r.current.keys@ == Seq::<KeyEntry>::empty(),
            r.previous.keys@ == Seq::<KeyEntry>::empty(),
    {
        KeyboardState::new()
    }
}

impl KeyboardState {
    /// Both snapshots are well formed.
    pub open spec fn wf(&self) -> bool {
        self.current.wf() && self.previous.wf()
    }

    /// A keyboard on which nothing has happened yet.
    pub fn new() -> (r: Self)
        ensures
            r.wf(),
            r.current.keys@ == Seq::<KeyEntry>::empty(),
            r.previous.keys@ == Seq::<KeyEntry>::empty(),
    {
        KeyboardState { current: State::new(), previous: State::new() }
    }

    /// Takes one key event in: the old `current` becomes `previous`, the
    /// keys that an earlier event had released leave, and the event's key
    /// is written with its new state.
    pub fn update(&mut self, keycode: KeyCode, new_state: KeyState)
        requires
            old(self).wf(),
        ensures
            final(self).wf(),
            final(self).previous.keys@ == old(self).current.keys@,
            final(self).previous@ == old(self).current@,
            final(self).current@ == without_released(old(self).current@).insert(
                keycode,
                new_state,
            ),
            forall|k: KeyCode|
                k != keycode && old(self).current@.dom().contains(k) && old(self).current@[k]
                    == KeyState::Released ==> !final(self).current@.dom().contains(k),
            final(self).current.keys@.len() > 0,
    {
        let mut next = self.current.pruned();
        next.insert(keycode, new_state);
        proof {
            lemma_entries_map(next.keys@);
            assert(entries_map(next.keys@).dom().contains(keycode));
            let i = choose|i: int| 0 <= i < next.keys@.len() && next.keys@[i].0 == keycode;
        }
        self.previous = self.current.snapshot();
        self.current = next;
    }
}

/// The strings of a list, each by its characters.
pub open spec fn texts(v: Seq<String>) -> Seq<Seq<char>> {
    v.map_values(|s: String| s@)
}

/// The shell commands among the commands, in their order.
pub open spec fn shell_commands(commands: Seq<Command>) -> Seq<Seq<char>>
    decreases commands.len(),
{
    if commands.len() == 0 {
        Seq::empty()
    } else {
        let front = shell_commands(commands.drop_last());
        match commands.last() {
            Command::Sh(text) => front.push(text@),
            Command::Internal(_) => front,
        }
    }
}

/// The submaps that the commands try to enter and that do not exist, in
/// their order.
pub open spec fn unknown_targets(commands: Seq<Command>, submaps: Seq<Submap>) -> Seq<Seq<char>>
    decreases commands.len(),
{
    if commands.len() == 0 {
        Seq::empty()
    } else {
        let front = unknown_targets(commands.drop_last(), submaps);
        match commands.last() {
            Command::Internal(Keyword::Enter(name)) => if find_submap(submaps, name@) is None {
                front.push(name@)
            } else {
                front
            },
            _ => front,
        }
    }
}

/// The submap that is current once the commands have run from `current`:
/// each `Enter` of a submap that exists moves there, each `Exit` moves to
/// `main`, and the last move counts.
pub open spec fn next_submap(commands: Seq<Command>, submaps: Seq<Submap>, current: Seq<char>) -> Seq<
    char,
>
    decreases commands.len(),
{
    if commands.len() == 0 {
        current
    } else {
        let before = next_submap(commands.drop_last(), submaps, current);
        match commands.last() {
            Command::Internal(Keyword::Enter(name)) => if find_submap(submaps, name@) is Some {
                name@
            } else {
                before
            },
            Command::Internal(Keyword::Exit) => "main"@,
            Command::Sh(_) => before,
        }
    }
}

/// Which submap is active, and the submaps there are.
#[derive(Clone, Debug)]
pub struct SubmapState {
    pub submaps: Submaps,
    /// The name of the active submap.
    pub current: String,
}

impl Default for SubmapState {
    /// A configuration with nothing but an empty `main`.
    fn default() -> (r: Self)
        ensures
            r.wf(),
            r.current@ == "main"@,
            r.submaps@.len() == 1,
            r.submaps@[0].name@ == "main"@,
            r.submaps@[0].binds@.len() == 0,
    {
        let mut submaps: Vec<Submap> = Vec::new();
        submaps.push(Submap { name: "main".to_owned(), mods: Vec::new(), binds: Vec::new() });
        let r = SubmapState { submaps, current: "main".to_owned() };
        proof {
            reveal(crate::config::mods_cover);
            assert(find_submap(r.submaps@, "main"@) == Some(0int));
        }
        r
    }
}

impl SubmapState {
    /// The submaps are well formed and the current one is among them.
    pub open spec fn wf(&self) -> bool {
        &&& submaps_wf(self.submaps@)
        &&& find_submap(self.submaps@, self.current@) is Some
    }

    /// The current submap is one of the submaps.
    pub proof fn lemma_current_is_submap(&self)
        requires
            self.wf(),
        ensures
            exists|i: int|
                0 <= i < self.submaps@.len() && (#[trigger] self.submaps@[i]).name@
                    == self.current@,
            self.active().name@ == self.current@,
            self.active().wf(),
    {
        crate::config::lemma_find_submap_from(self.submaps@, self.current@, 0);
        let i = find_submap(self.submaps@, self.current@)->0;
        assert(self.submaps@[i].name@ == self.current@);
    }

    /// The active submap.
    pub open spec fn active(&self) -> Submap {
        self.submaps@[find_submap(self.submaps@, self.current@)->0]
    }

    /// Starts in `main`.
    pub fn new(config: Config) -> (r: Self)
        requires
            submaps_wf(config.submaps@),
        ensures
            r.wf(),
            r.submaps == config.submaps,
            r.current@ == "main"@,
    {
        SubmapState { submaps: config.submaps, current: "main".to_owned() }
    }

    /// The place of the active submap among the submaps.
    pub fn current_index(&self) -> (i: usize)
        requires
            self.wf(),
        ensures
            find_submap(self.submaps@, self.current@) == Some(i as int),
            i < self.submaps@.len(),
            self.submaps@[i as int] == self.active(),
    {
        proof {
            crate::config::lemma_find_submap_from(self.submaps@, self.current@, 0);
        }
        match submap_index(&self.submaps, &self.current) {
            Some(i) => i,
            None => 0,
        }
    }

    /// Makes the named submap the active one, if it exists; says whether
    /// it does.
    pub fn enter(&mut self, name: &String) -> (found: bool)
        requires
            old(self).wf(),
        ensures
            final(self).wf(),
            final(self).submaps == old(self).submaps,
            found == (find_submap(old(self).submaps@, name@) is Some),
            final(self).current@ == if found {
                name@
            } else {
                old(self).current@
            },
    {
        match submap_index(&self.submaps, name) {
            Some(_) => {
                self.current = name.clone();
                true
            },
            None => false,
        }
    }

    /// Goes back to `main`.
    pub fn exit(&mut self)
        requires
            old(self).wf(),
        ensures
            final(self).wf(),
            final(self).submaps == old(self).submaps,
            final(self).current@ == "main"@,
    {
        self.current = "main".to_owned();
    }

    /// Runs the internal commands of a fired bind, one after the other, and
    /// collects its shell commands and the submaps it could not enter.
    pub fn run(&mut self, commands: &Vec<Command>) -> (r: (Vec<String>, Vec<String>))
        requires
            old(self).wf(),
        ensures
            final(self).wf(),
            final(self).submaps == old(self).submaps,
            final(self).current@ == next_submap(
                commands@,
                old(self).submaps@,
                old(self).current@,
            ),
            texts(r.0@) == shell_commands(commands@),
            texts(r.1@) == unknown_targets(commands@, old(self).submaps@),
    {
        let mut shell: Vec<String> = Vec::new();
        let mut unknown: Vec<String> = Vec::new();
        assert(texts(shell@) =~= shell_commands(commands@.take(0)));
        assert(texts(unknown@) =~= unknown_targets(commands@.take(0), self.submaps@));
        let mut i: usize = 0;
        while i < commands.len()
            invariant
                i <= commands@.len(),
                self.wf(),
                self.submaps == old(self).submaps,
                self.current@ == next_submap(
                    commands@.take(i as int),
                    old(self).submaps@,
                    old(self).current@,
                ),
                texts(shell@) == shell_commands(commands@.take(i as int)),
                texts(unknown@) == unknown_targets(commands@.take(i as int), old(self).submaps@),
            decreases commands@.len() - i,
        {
            proof {
                assert(commands@.take(i + 1).drop_last() =~= commands@.take(i as int));
                assert(commands@.take(i + 1).last() == commands@[i as int]);
            }
            let ghost shell_before = shell@;
            let ghost unknown_before = unknown@;
            match &commands[i] {
                Command::Sh(text) => {
                    shell.push(text.clone());
                    assert(texts(shell@) =~= texts(shell_before).push(text@));
                },
                Command::Internal(Keyword::Enter(name)) => {
                    let found = self.enter(name);
                    if !found {
                        unknown.push(name.clone());
                        assert(texts(unknown@) =~= texts(unknown_before).push(name@));
                    }
                },
                Command::Internal(Keyword::Exit) => {
                    self.exit();
                },
            }
            i += 1;
        }
        assert(commands@.take(i as int) =~= commands@);
        (shell, unknown)
    }
}

/// One of the modifiers is among the keys of the keyboard state, pressed
/// or just released.
pub open spec fn any_mod_held(mods: Seq<KeyCode>, keys: Map<KeyCode, KeyState>) -> bool {
    exists|i: int| 0 <= i < mods.len() && keys.dom().contains(#[trigger] mods[i])
}

/// Whether one of the modifiers is among the keys of the keyboard state.
pub fn has_any_mod(mods: &Vec<KeyCode>, current: &State) -> (r: bool)
    requires
        current.wf(),
    ensures
        r == any_mod_held(mods@, current@),
{
    let mut i: usize = 0;
    while i < mods.len()
        invariant
            i <= mods@.len(),
            current.wf(),
            forall|j: int| 0 <= j < i ==> !current@.dom().contains(#[trigger] mods@[j]),
        decreases mods@.len() - i,
    {
        if current.contains_key(mods[i]) {
            return true;
        }
        i += 1;
    }
    false
}

/// The event is a release, and the keyboard held more keys before it than
/// after: an earlier release is still being cleared away.
pub open spec fn is_release_edge(keyboard: KeyboardState, key_state: KeyState) -> bool {
    key_state == KeyState::Released && keyboard.previous.keys@.len()
        > keyboard.current.keys@.len()
}

/// What is decided for one key event: whether the raw event goes on to the
/// virtual keyboard, and which bind of the active submap fires.
pub struct Decision {
    pub forward: bool,
    pub fire: Option<int>,
}

/// The decision for a key event, the keyboard state being the one after the
/// event.
///
/// The bind for the held keys is the one that names just these keys with
/// just these states: every bind of a well-formed submap is exact. With no
/// such bind, the event is forwarded. With one: on a release edge the event
/// is forwarded, and the bind fires if it is a release chord. Otherwise an auto-repeat that the bind does not ask for is
/// dropped; anything else fires, and is forwarded only if the bind does not
/// swallow. An event that no modifier of the submap takes part in has been
/// forwarded before any bind was looked at, and stays forwarded.
pub open spec fn decide(
    submap: Submap,
    keyboard: KeyboardState,
    key_state: KeyState,
    repeat: bool,
) -> Decision {
    let passed = !any_mod_held(submap.mods@, keyboard.current@);
    match find_bind(submap.binds@, keyboard.current.keys@) {
        None => Decision { forward: true, fire: None },
        Some(i) => {
            let bind = submap.binds@[i];
            if is_release_edge(keyboard, key_state) {
                Decision {
                    forward: true,
                    fire: if is_release_form(bind.sequence@) {
                        Some(i)
                    } else {
                        None
                    },
                }
            } else if repeat && !bind.args.repeat {
                Decision { forward: passed, fire: None }
            } else {
                Decision { forward: passed || !bind.args.swallow, fire: Some(i) }
            }
        },
    }
}

/// The commands of the bind that fires; none where none fires.
pub open spec fn fired_commands(submap: Submap, decision: Decision) -> Seq<Command> {
    match decision.fire {
        Some(i) => submap.binds@[i].args.commands@,
        None => Seq::empty(),
    }
}

/// A bind that matches the held keys has one of the submap's modifiers
/// among them.
pub proof fn lemma_match_holds_mod(submap: Submap, current: State, i: int)
    requires
        submap.wf(),
        current.wf(),
        find_bind(submap.binds@, current.keys@) == Some(i),
    ensures
        any_mod_held(submap.mods@, current@),
{
    reveal(crate::config::mods_cover);
    crate::config::lemma_find_bind_from(submap.binds@, current.keys@, 0);
    lemma_entries_map(current.keys@);
    let sequence = submap.binds@[i].sequence@;
    assert(crate::config::meets(sequence, submap.mods@));
    let j = choose|j: int| 0 <= j < sequence.len() && submap.mods@.contains((#[trigger] sequence[j]).0);
    let key = sequence[j].0;
    let m = choose|m: int| 0 <= m < submap.mods@.len() && submap.mods@[m] == key;
    assert(current@.dom().contains(current.keys@[j].0));
    assert(current@.dom().contains(submap.mods@[m]));
}

/// A key event is never both forwarded and fired by a bind that swallows,
/// unless it is a release edge, where it is always forwarded.
pub proof fn lemma_swallowed_when_fired(
    submap: Submap,
    keyboard: KeyboardState,
    key_state: KeyState,
    repeat: bool,
)
    requires
        submap.wf(),
        keyboard.wf(),
        !is_release_edge(keyboard, key_state),
    ensures
        ({
            let decision = decide(submap, keyboard, key_state, repeat);
            decision.fire is Some && submap.binds@[decision.fire->0].args.swallow
                ==> !decision.forward
        }),
{
    match find_bind(submap.binds@, keyboard.current.keys@) {
        Some(i) => {
            lemma_match_holds_mod(submap, keyboard.current, i);
        },
        None => {},
    }
}

/// What the caller has to do for one key event.
#[derive(Debug)]
pub struct Dispatch {
    /// Emit the raw event on the virtual keyboard.
    pub forward: bool,
    /// The bind that fired, by its place in the submap that was active when
    /// the event came.
    pub fired: Option<usize>,
    /// The shell commands to start, in order.
    pub shell: Vec<String>,
    /// The submaps that the bind tried to enter and that do not exist.
    pub unknown: Vec<String>,
}

/// `r` is what the decision for the event asks for, and `after` is the
/// submap state once the internal commands of the fired bind have run on
/// `before`.
pub open spec fn dispatched(
    before: SubmapState,
    after: SubmapState,
    keyboard: KeyboardState,
    key_state: KeyState,
    repeat: bool,
    r: Dispatch,
) -> bool {
    let submap = before.active();
    let decision = decide(submap, keyboard, key_state, repeat);
    let commands = fired_commands(submap, decision);
    &&& r.forward == decision.forward
    &&& r.fired is Some == decision.fire is Some
    &&& r.fired is Some ==> r.fired->0 as int == decision.fire->0
    &&& texts(r.shell@) == shell_commands(commands)
    &&& texts(r.unknown@) == unknown_targets(commands, before.submaps@)
    &&& after.submaps == before.submaps
    &&& after.current@ == next_submap(commands, before.submaps@, before.current@)
}

/// Whether one of the entries is `Released`.
pub fn has_released(sequence: &Vec<KeyEntry>) -> (r: bool)
    ensures
        r == is_release_form(sequence@),
{
    let mut i: usize = 0;
    while i < sequence.len()
        invariant
            i <= sequence@.len(),
            forall|j: int| 0 <= j < i ==> (#[trigger] sequence@[j]).1 != KeyState::Released,
        decreases sequence@.len() - i,
    {
        if sequence[i].1 == KeyState::Released {
            return true;
        }
        i += 1;
    }
    false
}

/// Holds the keyboard state, as one key event left it, against the binds of
/// the active submap, and runs the internal commands of the bind that
/// fires. `repeat` says that the event was an auto-repeat of a held key.
///
/// The event is never both forwarded and fired by a bind that swallows,
/// except on a release edge, where it is always forwarded.
pub fn trigger_action(
    submaps_state: &mut SubmapState,
    keyboard_state: &KeyboardState,
    key_state: &KeyState,
    repeat: bool,
) -> (r: Dispatch)
    requires
        old(submaps_state).wf(),
        keyboard_state.wf(),
    ensures
        final(submaps_state).wf(),
        final(submaps_state).submaps == old(submaps_state).submaps,
        dispatched(*old(submaps_state), *final(submaps_state), *keyboard_state, *key_state, repeat, r),
        r.fired is Some ==> r.fired->0 < old(submaps_state).active().binds@.len(),
        r.fired is Some && old(submaps_state).active().binds@[r.fired->0 as int].args.swallow
            && !is_release_edge(*keyboard_state, *key_state) ==> !r.forward,
{
    let at = submaps_state.current_index();
    let passed = !has_any_mod(&submaps_state.submaps[at].mods, &keyboard_state.current);
    let found = submaps_state.submaps[at].lookup(&keyboard_state.current.keys);
    proof {
        crate::config::lemma_find_bind_from(
            submaps_state.submaps@[at as int].binds@,
            keyboard_state.current.keys@,
            0,
        );
    }
    assert(texts(Seq::<String>::empty()) =~= Seq::<Seq<char>>::empty());
    match found {
        None => Dispatch { forward: true, fired: None, shell: Vec::new(), unknown: Vec::new() },
        Some(i) => {
            proof {
                if !is_release_edge(*keyboard_state, *key_state) {
                    lemma_swallowed_when_fired(
                        submaps_state.submaps@[at as int],
                        *keyboard_state,
                        *key_state,
                        repeat,
                    );
                }
            }
            let edge = *key_state == KeyState::Released && keyboard_state.previous.keys.len()
                > keyboard_state.current.keys.len();
            let forward: bool;
            let fire: bool;
            if edge {
                forward = true;
                fire = has_released(&submaps_state.submaps[at].binds[i].sequence);
            } else if repeat && !submaps_state.submaps[at].binds[i].args.repeat {
                forward = passed;
                fire = false;
            } else {
                forward = passed || !submaps_state.submaps[at].binds[i].args.swallow;
                fire = true;
            }
            if fire {
                let commands = copy_commands(&submaps_state.submaps[at].binds[i].args.commands);
                let (shell, unknown) = submaps_state.run(&commands);
                Dispatch { forward, fired: Some(i), shell, unknown }
            } else {
                Dispatch { forward, fired: None, shell: Vec::new(), unknown: Vec::new() }
            }
        },
    }
}

} // verus!
