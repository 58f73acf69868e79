//! The configuration the engine consumes: named submaps, each a set of
//! binds from a key sequence to what it triggers.

pub mod check;
pub mod kdl;
pub mod keymap;
pub mod utils;

use crate::error::MudrasError;
use crate::input::keys::KeyCode;
use crate::input::utils::{KeyEntry, KeyState};
use vstd::prelude::*;

verus! {

/// Whether a chord triggers when its last key goes down or when it comes up.
#[derive(Debug, Clone, Copy, PartialEq, Eq, Hash, Structural)]
pub enum SequenceType {
    Press,
    Release,
}

/// A command of the daemon itself.
#[derive(Debug, Clone, PartialEq, Hash)]
pub enum Keyword {
    /// Make the named submap the active one.
    Enter(String),
    /// Go back to the `main` submap.
    Exit,
}

/// What a bind runs.
#[derive(Debug, Clone, PartialEq, Hash)]
pub enum Command {
    /// A shell command, run detached.
    Sh(String),
    /// A command of the daemon itself.
    Internal(Keyword),
}

/// What is attached to a key sequence.
#[derive(Clone, Debug, PartialEq)]
pub struct BindArgs {
    pub commands: Vec<Command>,
    /// Keep the event that completed the chord from the applications.
    pub swallow: bool,
    /// Run the commands again on each auto-repeat while the chord is held.
    pub repeat: bool,
    /// Do not match when more keys are held than the chord names.
    pub exact: bool,
}

impl Default for BindArgs {
    fn default() -> (r: Self)
        ensures
            r.commands@.len() == 0,
            r.swallow,
            !r.repeat,
            r.exact,
    {
        BindArgs { commands: Vec::new(), swallow: true, repeat: false, exact: true }
    }
}

/// A chord's trigger condition: keys with the state each must have.
pub type BindSequence = Vec<KeyEntry>;

/// One rule of a submap.
#[derive(Debug, Clone, PartialEq)]
pub struct Bind {
    pub sequence: BindSequence,
    pub args: BindArgs,
}

/// The binds of one submap; no two have the same sequence.
pub type Binds = Vec<Bind>;

/// A named set of binds.
#[derive(Clone, Debug)]
pub struct Submap {
    pub name: String,
    /// The first key of each bind's chord as it is written, ascending, each
    /// once.
    pub mods: Vec<KeyCode>,
    pub binds: Binds,
}

/// The submaps of a configuration; no two have the same name.
pub type Submaps = Vec<Submap>;

/// The whole configuration.
#[derive(Debug, Clone)]
pub struct Config {
    pub submaps: Submaps,
}

/// Key codes never fall along the sequence.
pub open spec fn sorted_by_code(s: Seq<KeyEntry>) -> bool {
    forall|i: int, j: int| 0 <= i <= j < s.len() ==> s[i].0 <= s[j].0
}

/// Key codes grow strictly along the list.
pub open spec fn codes_ascending(s: Seq<KeyCode>) -> bool {
    forall|i: int, j: int| 0 <= i < j < s.len() ==> s[i] < s[j]
}

/// A chord that triggers on a key coming up: one of its entries is `Released`.
pub open spec fn is_release_form(s: Seq<KeyEntry>) -> bool {
    exists|i: int| 0 <= i < s.len() && (#[trigger] s[i]).1 == KeyState::Released
}

/// No two binds have the same sequence.
pub open spec fn binds_distinct(binds: Seq<Bind>) -> bool {
    forall|i: int, j: int|
        0 <= i < j < binds.len() ==> (#[trigger] binds[i]).sequence@ != (
        #[trigger] binds[j]).sequence@
}

/// The sequence names the key.
pub open spec fn has_key(s: Seq<KeyEntry>, key: KeyCode) -> bool {
    exists|j: int| 0 <= j < s.len() && (#[trigger] s[j]).0 == key
}

/// One of the binds names the key.
pub open spec fn is_bound_key(binds: Seq<Bind>, key: KeyCode) -> bool {
    exists|i: int| 0 <= i < binds.len() && has_key((#[trigger] binds[i]).sequence@, key)
}

/// One of the keys of the sequence is among the modifiers.
pub open spec fn meets(s: Seq<KeyEntry>, mods: Seq<KeyCode>) -> bool {
    exists|j: int| 0 <= j < s.len() && mods.contains((#[trigger] s[j]).0)
}

/// What the stored binds show of the modifiers. A stored sequence is
/// sorted, so it does not show which key the chord was written with first;
/// but the modifiers ascend, each is a key of some bind, and every bind
/// with keys has one of them among its keys.
#[verifier::opaque]
pub open spec fn mods_cover(mods: Seq<KeyCode>, binds: Seq<Bind>) -> bool {
    &&& codes_ascending(mods)
    &&& forall|m: int| 0 <= m < mods.len() ==> is_bound_key(binds, #[trigger] mods[m])
    &&& forall|i: int|
        0 <= i < binds.len() && (#[trigger] binds[i]).sequence@.len() > 0 ==> meets(
            binds[i].sequence@,
            mods,
        )
}

/// Every bind names a key at least.
pub open spec fn all_keyed(binds: Seq<Bind>) -> bool {
    forall|i: int| 0 <= i < binds.len() ==> (#[trigger] binds[i]).sequence@.len() > 0
}

/// Every bind is exact: it matches the keys it names and no others.
pub open spec fn all_exact(binds: Seq<Bind>) -> bool {
    forall|i: int| 0 <= i < binds.len() ==> (#[trigger] binds[i]).args.exact
}

/// `key` is the first key of some bind's sequence.
pub open spec fn is_first_key(binds: Seq<Bind>, key: KeyCode) -> bool {
    exists|i: int|
        0 <= i < binds.len() && (#[trigger] binds[i]).sequence@.len() > 0
            && binds[i].sequence@[0].0 == key
}

/// The first bind at or after `from` whose sequence is `held`.
pub open spec fn find_bind_from(binds: Seq<Bind>, held: Seq<KeyEntry>, from: int) -> Option<int>
    decreases binds.len() - from,
{
    if from < 0 || from >= binds.len() {
        None
    } else if binds[from].sequence@ == held {
        Some(from)
    } else {
        find_bind_from(binds, held, from + 1)
    }
}

/// The bind whose sequence is `held`, if there is one.
pub open spec fn find_bind(binds: Seq<Bind>, held: Seq<KeyEntry>) -> Option<int> {
    find_bind_from(binds, held, 0)
}

/// What `find_bind_from` returns is the first match, and `None` means that
/// nothing from `from` on matches.
pub proof fn lemma_find_bind_from(binds: Seq<Bind>, held: Seq<KeyEntry>, from: int)
    requires
        0 <= from,
    ensures
        match find_bind_from(binds, held, from) {
            Some(i) => from <= i < binds.len() && binds[i].sequence@ == held && forall|j: int|
                from <= j < i ==> binds[j].sequence@ != held,
            None => forall|j: int| from <= j < binds.len() ==> binds[j].sequence@ != held,
        },
    decreases binds.len() - from,
{
    if from < binds.len() && binds[from].sequence@ != held {
        lemma_find_bind_from(binds, held, from + 1);
    }
}

/// Every bind of a set of exact binds asks to match its own keys and no
/// others, and the bind that is found does: it names the held keys and no
/// others.
pub proof fn lemma_found_is_exact(binds: Seq<Bind>, held: Seq<KeyEntry>)
    requires
        all_exact(binds),
    ensures
        find_bind(binds, held) matches Some(i) ==> 0 <= i < binds.len() && binds[i].args.exact
            && binds[i].sequence@ == held,
{
    lemma_find_bind_from(binds, held, 0);
}

/// The first submap at or after `from` with the given name.
pub open spec fn find_submap_from(submaps: Seq<Submap>, name: Seq<char>, from: int) -> Option<int>
    decreases submaps.len() - from,
{
    if from < 0 || from >= submaps.len() {
        None
    } else if submaps[from].name@ == name {
        Some(from)
    } else {
        find_submap_from(submaps, name, from + 1)
    }
}

/// The submap with the given name, if there is one.
pub open spec fn find_submap(submaps: Seq<Submap>, name: Seq<char>) -> Option<int> {
    find_submap_from(submaps, name, 0)
}

/// What `find_submap_from` returns is the first submap of that name, and
/// `None` means that none from `from` on has it.
pub proof fn lemma_find_submap_from(submaps: Seq<Submap>, name: Seq<char>, from: int)
    requires
        0 <= from,
    ensures
        match find_submap_from(submaps, name, from) {
            Some(i) => from <= i < submaps.len() && submaps[i].name@ == name && forall|j: int|
                from <= j < i ==> submaps[j].name@ != name,
            None => forall|j: int| from <= j < submaps.len() ==> submaps[j].name@ != name,
        },
    decreases submaps.len() - from,
{
    if from < submaps.len() && submaps[from].name@ != name {
        lemma_find_submap_from(submaps, name, from + 1);
    }
}

/// No two submaps have the same name.
pub open spec fn names_distinct(submaps: Seq<Submap>) -> bool {
    forall|i: int, j: int|
        0 <= i < j < submaps.len() ==> (#[trigger] submaps[i]).name@ != (
        #[trigger] submaps[j]).name@
}

/// Every `Enter` among the commands names a submap that exists.
pub open spec fn targets_exist(commands: Seq<Command>, submaps: Seq<Submap>) -> bool {
    forall|c: int|
        0 <= c < commands.len() ==> match #[trigger] commands[c] {
            Command::Internal(Keyword::Enter(name)) => find_submap(submaps, name@) is Some,
            _ => true,
        }
}

impl Submap {
    /// The binds differ in their sequences, each sequence names a key and
    /// is stored sorted by key code, each bind is exact, and the modifiers
    /// are keys of the binds, one at least of each bind.
    pub open spec fn wf(&self) -> bool {
        &&& binds_distinct(self.binds@)
        &&& all_keyed(self.binds@)
        &&& forall|i: int|
            0 <= i < self.binds@.len() ==> sorted_by_code((#[trigger] self.binds@[i]).sequence@)
        &&& all_exact(self.binds@)
        &&& mods_cover(self.mods@, self.binds@)
    }
}

impl Submap {
    /// The bind whose sequence is `held`, by its place among the binds.
    pub fn lookup(&self, held: &Vec<KeyEntry>) -> (r: Option<usize>)
        ensures
            match r {
                Some(i) => find_bind(self.binds@, held@) == Some(i as int),
                None => find_bind(self.binds@, held@) is None,
            },
    {
        let mut i: usize = 0;
        while i < self.binds.len()
            invariant
                i <= self.binds@.len(),
                find_bind(self.binds@, held@) == find_bind_from(self.binds@, held@, i as int),
            decreases self.binds@.len() - i,
        {
            if utils::sequence_eq(&self.binds[i].sequence, held) {
                return Some(i);
            }
            i += 1;
        }
        None
    }
}

/// The submap of the given name, by its place among the submaps.
pub fn submap_index(submaps: &Submaps, name: &String) -> (r: Option<usize>)
    ensures
        match r {
            Some(i) => find_submap(submaps@, name@) == Some(i as int),
            None => find_submap(submaps@, name@) is None,
        },
{
    let mut i: usize = 0;
    while i < submaps.len()
        invariant
            i <= submaps@.len(),
            find_submap(submaps@, name@) == find_submap_from(submaps@, name@, i as int),
        decreases submaps@.len() - i,
    {
        if submaps[i].name == *name {
            return Some(i);
        }
        i += 1;
    }
    None
}

/// What the engine needs of a set of submaps: the names differ, `main` is
/// among them, and each submap is well formed.
pub open spec fn submaps_wf(submaps: Seq<Submap>) -> bool {
    &&& names_distinct(submaps)
    &&& find_submap(submaps, "main"@) is Some
    &&& forall|i: int| 0 <= i < submaps.len() ==> (#[trigger] submaps[i]).wf()
}

/// A copy of a list of commands.
pub fn copy_commands(commands: &Vec<Command>) -> (r: Vec<Command>)
    ensures
        r@ == commands@,
{
    let mut out: Vec<Command> = Vec::new();
    let mut i: usize = 0;
    while i < commands.len()
        invariant
            i <= commands@.len(),
            out@ == commands@.take(i as int),
        decreases commands@.len() - i,
    {
        let copy = match &commands[i] {
            Command::Sh(text) => Command::Sh(text.clone()),
            Command::Internal(Keyword::Enter(name)) => Command::Internal(
                Keyword::Enter(name.clone()),
            ),
            Command::Internal(Keyword::Exit) => Command::Internal(Keyword::Exit),
        };
        out.push(copy);
        assert(commands@.take(i + 1) =~= commands@.take(i as int).push(commands@[i as int]));
        i += 1;
    }
    assert(commands@.take(i as int) =~= commands@);
    out
}

/// A copy of a list of binds: the same sequences with the same commands
/// and flags.
pub fn copy_binds(binds: &Vec<Bind>) -> (r: Vec<Bind>)
    ensures
        r@.len() == binds@.len(),
        forall|i: int|
            0 <= i < binds@.len() ==> {
                &&& (#[trigger] r@[i]).sequence@ == binds@[i].sequence@
                &&& r@[i].args.commands@ == binds@[i].args.commands@
                &&& r@[i].args.swallow == binds@[i].args.swallow
                &&& r@[i].args.repeat == binds@[i].args.repeat
                &&& r@[i].args.exact == binds@[i].args.exact
            },
{
    let mut out: Vec<Bind> = Vec::new();
    let mut i: usize = 0;
    while i < binds.len()
        invariant
            i <= binds@.len(),
            out@.len() == i,
            forall|j: int|
                0 <= j < i ==> {
                    &&& (#[trigger] out@[j]).sequence@ == binds@[j].sequence@
                    &&& out@[j].args.commands@ == binds@[j].args.commands@
                    &&& out@[j].args.swallow == binds@[j].args.swallow
                    &&& out@[j].args.repeat == binds@[j].args.repeat
                    &&& out@[j].args.exact == binds@[j].args.exact
                },
        decreases binds@.len() - i,
    {
        let bind = &binds[i];
        let mut sequence: Vec<KeyEntry> = Vec::new();
        let mut k: usize = 0;
        while k < bind.sequence.len()
            invariant
                k <= bind.sequence@.len(),
                sequence@ == bind.sequence@.take(k as int),
            decreases bind.sequence@.len() - k,
        {
            sequence.push(bind.sequence[k]);
            assert(bind.sequence@.take(k + 1) =~= bind.sequence@.take(k as int).push(
                bind.sequence@[k as int],
            ));
            k += 1;
        }
        assert(bind.sequence@.take(k as int) =~= bind.sequence@);
        out.push(
            Bind {
                sequence,
                args: BindArgs {
                    commands: copy_commands(&bind.args.commands),
                    swallow: bind.args.swallow,
                    repeat: bind.args.repeat,
                    exact: bind.args.exact,
                },
            },
        );
        i += 1;
    }
    out
}

impl Config {
    /// The binds of each submap under the submap's name, in the order of
    /// the submaps. This never fails.
    pub fn get_submaps(&self) -> (r: Result<Vec<(String, Vec<Bind>)>, MudrasError>)
        ensures
            r is Ok,
            r->Ok_0@.len() == self.submaps@.len(),
            forall|s: int|
                0 <= s < self.submaps@.len() ==> {
                    let binds = self.submaps@[s].binds@;
                    let copy = (#[trigger] r->Ok_0@[s]).1@;
                    &&& r->Ok_0@[s].0@ == self.submaps@[s].name@
                    &&& copy.len() == binds.len()
                    &&& forall|i: int|
                        0 <= i < binds.len() ==> {
                            &&& (#[trigger] copy[i]).sequence@ == binds[i].sequence@
                            &&& copy[i].args.commands@ == binds[i].args.commands@
                            &&& copy[i].args.swallow == binds[i].args.swallow
                            &&& copy[i].args.repeat == binds[i].args.repeat
                            &&& copy[i].args.exact == binds[i].args.exact
                        }
                },
    {
        let mut list: Vec<(String, Vec<Bind>)> = Vec::new();
        let mut s: usize = 0;
        while s < self.submaps.len()
            invariant
                s <= self.submaps@.len(),
                list@.len() == s,
                forall|t: int|
                    0 <= t < s ==> {
                        let binds = self.submaps@[t].binds@;
                        let copy = (#[trigger] list@[t]).1@;
                        &&& list@[t].0@ == self.submaps@[t].name@
                        &&& copy.len() == binds.len()
                        &&& forall|i: int|
                            0 <= i < binds.len() ==> {
                                &&& (#[trigger] copy[i]).sequence@ == binds[i].sequence@
                                &&& copy[i].args.commands@ == binds[i].args.commands@
                                &&& copy[i].args.swallow == binds[i].args.swallow
                                &&& copy[i].args.repeat == binds[i].args.repeat
                                &&& copy[i].args.exact == binds[i].args.exact
                            }
                    },
            decreases self.submaps@.len() - s,
        {
            list.push((self.submaps[s].name.clone(), copy_binds(&self.submaps[s].binds)));
            s += 1;
        }
        Ok(list)
    }

    /// The submaps differ in their names, `main` is among them, each is
    /// well formed, and every submap that a command enters exists.
    pub open spec fn wf(&self) -> bool {
        &&& submaps_wf(self.submaps@)
        &&& forall|i: int, b: int|
            0 <= i < self.submaps@.len() && 0 <= b < self.submaps@[i].binds@.len()
                ==> targets_exist(
                (#[trigger] self.submaps@[i].binds@[b]).args.commands@,
                self.submaps@,
            )
    }
}

} // verus!
