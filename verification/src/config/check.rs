//! Holding a configuration to its invariants before the engine runs on it.

use crate::config::utils::sequence_eq;
use crate::config::{
    all_exact, all_keyed, binds_distinct, codes_ascending, find_submap, has_key, is_bound_key, meets,
    mods_cover, names_distinct, sorted_by_code, submap_index, targets_exist, Bind, Command,
    Config, Keyword, Submap,
};
use crate::input::keys::KeyCode;
use crate::input::utils::KeyEntry;
use vstd::prelude::*;

verus! {

/// What is wrong with a configuration.
#[derive(Clone, Copy, Debug, PartialEq, Eq, Structural)]
pub enum Fault {
    /// There is no submap named `main`.
    MissingMain,
    /// Two submaps have the same name.
    DuplicateSubmap,
    /// Two binds of one submap have the same sequence.
    DuplicateBind,
    /// A bind names no key.
    EmptySequence,
    /// A sequence is not stored sorted by key code.
    UnsortedSequence,
    /// A bind asks to match while more keys are held than it names, which
    /// the engine does not do.
    InexactBind,
    /// The modifiers of a submap do not ascend, or one is no key of any
    /// bind, or a bind with keys has none of them.
    StaleModifiers,
    /// A command enters a submap that does not exist.
    UnknownTarget,
}

/// Every sequence of the binds is sorted by key code.
pub open spec fn sequences_sorted(binds: Seq<Bind>) -> bool {
    forall|i: int| 0 <= i < binds.len() ==> sorted_by_code((#[trigger] binds[i]).sequence@)
}

/// What is wrong with one submap: the first of a double bind, a bind
/// without keys, an unsorted sequence, an inexact bind and wrong modifiers
/// that holds of it.
pub open spec fn submap_fault(submap: Submap) -> Option<Fault> {
    if !binds_distinct(submap.binds@) {
        Some(Fault::DuplicateBind)
    } else if !all_keyed(submap.binds@) {
        Some(Fault::EmptySequence)
    } else if !sequences_sorted(submap.binds@) {
        Some(Fault::UnsortedSequence)
    } else if !all_exact(submap.binds@) {
        Some(Fault::InexactBind)
    } else if !mods_cover(submap.mods@, submap.binds@) {
        Some(Fault::StaleModifiers)
    } else {
        None
    }
}

/// The fault of the first submap at or after `from` that has one.
pub open spec fn first_submap_fault(submaps: Seq<Submap>, from: int) -> Option<Fault>
    decreases submaps.len() - from,
{
    if from < 0 || from >= submaps.len() {
        None
    } else if submap_fault(submaps[from]) is Some {
        submap_fault(submaps[from])
    } else {
        first_submap_fault(submaps, from + 1)
    }
}

/// Every submap that a command of the configuration enters exists.
pub open spec fn all_targets_exist(submaps: Seq<Submap>) -> bool {
    forall|i: int, b: int|
        0 <= i < submaps.len() && 0 <= b < submaps[i].binds@.len() ==> targets_exist(
            (#[trigger] submaps[i].binds@[b]).args.commands@,
            submaps,
        )
}

/// What is wrong with a configuration, if anything: the first that holds
/// of a missing `main`, a double name, a faulty submap and a missing target.
pub open spec fn fault_of(submaps: Seq<Submap>) -> Option<Fault> {
    if find_submap(submaps, "main"@) is None {
        Some(Fault::MissingMain)
    } else if !names_distinct(submaps) {
        Some(Fault::DuplicateSubmap)
    } else if first_submap_fault(submaps, 0) is Some {
        first_submap_fault(submaps, 0)
    } else if !all_targets_exist(submaps) {
        Some(Fault::UnknownTarget)
    } else {
        None
    }
}

/// No submap from `from` on has a fault exactly when each of them is well
/// formed.
pub proof fn lemma_first_submap_fault(submaps: Seq<Submap>, from: int)
    requires
        0 <= from,
    ensures
        first_submap_fault(submaps, from) is None <==> forall|i: int|
            from <= i < submaps.len() ==> (#[trigger] submaps[i]).wf(),
    decreases submaps.len() - from,
{
    if from < submaps.len() {
        lemma_first_submap_fault(submaps, from + 1);
        if submap_fault(submaps[from]) is Some {
            assert(!submaps[from].wf());
        } else {
            assert(submaps[from].wf());
            if first_submap_fault(submaps, from + 1) is None {
                assert forall|i: int| from <= i < submaps.len() implies (
                #[trigger] submaps[i]).wf() by {
                    if i > from {
                    }
                }
            }
        }
    }
}

/// A configuration is well formed exactly when nothing is wrong with it.
pub proof fn lemma_fault_of(config: Config)
    ensures
        fault_of(config.submaps@) is None <==> config.wf(),
{
    lemma_first_submap_fault(config.submaps@, 0);
}

/// Two lists of ascending codes that hold the same codes are the same list.
pub proof fn lemma_codes_canonical(a: Seq<KeyCode>, b: Seq<KeyCode>)
    requires
        codes_ascending(a),
        codes_ascending(b),
        forall|k: KeyCode| a.contains(k) <==> b.contains(k),
    ensures
        a == b,
    decreases a.len(),
{
    if a.len() == 0 {
        if b.len() > 0 {
            assert(b.contains(b[0]));
        }
        assert(a =~= b);
    } else {
        assert(a.contains(a[a.len() - 1]));
        assert(b.contains(a.last()));
        let ib = choose|i: int| 0 <= i < b.len() && b[i] == a.last();
        assert(b.contains(b[b.len() - 1]));
        let ia = choose|i: int| 0 <= i < a.len() && a[i] == b.last();
        assert(a.last() == b.last()) by {
            if ia < a.len() - 1 {
                assert(a[ia] < a[a.len() - 1]);
            }
            if ib < b.len() - 1 {
                assert(b[ib] < b[b.len() - 1]);
            }
        }
        let fa = a.drop_last();
        let fb = b.drop_last();
        assert forall|k: KeyCode| fa.contains(k) <==> fb.contains(k) by {
            if fa.contains(k) {
                let i = choose|i: int| 0 <= i < fa.len() && fa[i] == k;
                assert(a[i] < a[a.len() - 1]);
                assert(a.contains(a[i]));
                let j = choose|j: int| 0 <= j < b.len() && b[j] == k;
                assert(fb[j] == k);
            }
            if fb.contains(k) {
                let i = choose|i: int| 0 <= i < fb.len() && fb[i] == k;
                assert(b[i] < b[b.len() - 1]);
                assert(b.contains(b[i]));
                let j = choose|j: int| 0 <= j < a.len() && a[j] == k;
                assert(fa[j] == k);
            }
        }
        lemma_codes_canonical(fa, fb);
        assert(a =~= fa.push(a.last()));
        assert(b =~= fb.push(b.last()));
    }
}

/// Whether no two submaps have the same name.
pub fn names_are_distinct(submaps: &Vec<Submap>) -> (r: bool)
    ensures
        r == names_distinct(submaps@),
{
    let mut j: usize = 0;
    while j < submaps.len()
        invariant
            j <= submaps@.len(),
            forall|a: int, b: int|
                0 <= a < b < j ==> (#[trigger] submaps@[a]).name@ != (#[trigger] submaps@[b]).name@,
        decreases submaps@.len() - j,
    {
        let mut i: usize = 0;
        while i < j
            invariant
                i <= j < submaps@.len(),
                forall|a: int| 0 <= a < i ==> (#[trigger] submaps@[a]).name@ != submaps@[j as int].name@,
            decreases j - i,
        {
            if submaps[i].name == submaps[j].name {
                assert(submaps@[i as int].name@ == submaps@[j as int].name@);
                return false;
            }
            i += 1;
        }
        j += 1;
    }
    true
}

/// Whether no two binds have the same sequence.
pub fn binds_are_distinct(binds: &Vec<Bind>) -> (r: bool)
    ensures
        r == binds_distinct(binds@),
{
    let mut j: usize = 0;
    while j < binds.len()
        invariant
            j <= binds@.len(),
            forall|a: int, b: int|
                0 <= a < b < j ==> (#[trigger] binds@[a]).sequence@ != (
                #[trigger] binds@[b]).sequence@,
        decreases binds@.len() - j,
    {
        let mut i: usize = 0;
        while i < j
            invariant
                i <= j < binds@.len(),
                forall|a: int|
                    0 <= a < i ==> (#[trigger] binds@[a]).sequence@ != binds@[j as int].sequence@,
            decreases j - i,
        {
            if sequence_eq(&binds[i].sequence, &binds[j].sequence) {
                assert(binds@[i as int].sequence@ == binds@[j as int].sequence@);
                return false;
            }
            i += 1;
        }
        j += 1;
    }
    true
}

/// Whether a sequence is sorted by key code.
pub fn is_sorted(sequence: &Vec<KeyEntry>) -> (r: bool)
    ensures
        r == sorted_by_code(sequence@),
{
    let mut i: usize = 1;
    while i < sequence.len()
        invariant
            1 <= i,
            forall|a: int, b: int| 0 <= a <= b < i && b < sequence@.len() ==> sequence@[a].0 <= sequence@[b].0,
        decreases sequence@.len() - i,
    {
        if sequence[i - 1].0 > sequence[i].0 {
            return false;
        }
        assert forall|a: int, b: int| 0 <= a <= b < i + 1 && b < sequence@.len() implies sequence@[a].0
            <= sequence@[b].0 by {
            if b == i && a < i {
                assert(sequence@[a].0 <= sequence@[i - 1].0);
            }
        }
        i += 1;
    }
    true
}

/// Whether every sequence of the binds is sorted by key code.
pub fn all_sorted(binds: &Vec<Bind>) -> (r: bool)
    ensures
        r == sequences_sorted(binds@),
{
    let mut i: usize = 0;
    while i < binds.len()
        invariant
            i <= binds@.len(),
            forall|a: int| 0 <= a < i ==> sorted_by_code((#[trigger] binds@[a]).sequence@),
        decreases binds@.len() - i,
    {
        if !is_sorted(&binds[i].sequence) {
            return false;
        }
        i += 1;
    }
    true
}

/// Whether every bind names a key at least.
pub fn all_are_keyed(binds: &Vec<Bind>) -> (r: bool)
    ensures
        r == all_keyed(binds@),
{
    let mut i: usize = 0;
    while i < binds.len()
        invariant
            i <= binds@.len(),
            forall|a: int| 0 <= a < i ==> (#[trigger] binds@[a]).sequence@.len() > 0,
        decreases binds@.len() - i,
    {
        if binds[i].sequence.len() == 0 {
            return false;
        }
        i += 1;
    }
    true
}

/// Whether every bind is exact.
pub fn all_are_exact(binds: &Vec<Bind>) -> (r: bool)
    ensures
        r == all_exact(binds@),
{
    let mut i: usize = 0;
    while i < binds.len()
        invariant
            i <= binds@.len(),
            forall|a: int| 0 <= a < i ==> (#[trigger] binds@[a]).args.exact,
        decreases binds@.len() - i,
    {
        if !binds[i].args.exact {
            return false;
        }
        i += 1;
    }
    true
}

/// Whether the codes ascend strictly.
pub fn codes_ascend(codes: &Vec<KeyCode>) -> (r: bool)
    ensures
        r == codes_ascending(codes@),
{
    let mut i: usize = 1;
    while i < codes.len()
        invariant
            1 <= i,
            forall|a: int, b: int| 0 <= a < b < i && b < codes@.len() ==> codes@[a] < codes@[b],
        decreases codes@.len() - i,
    {
        if codes[i - 1] >= codes[i] {
            return false;
        }
        assert forall|a: int, b: int| 0 <= a < b < i + 1 && b < codes@.len() implies codes@[a]
            < codes@[b] by {
            if b == i && a < i - 1 {
                assert(codes@[a] < codes@[i - 1]);
            }
        }
        i += 1;
    }
    true
}

/// Whether the sequence names the key.
pub fn names_key(sequence: &Vec<KeyEntry>, key: KeyCode) -> (r: bool)
    ensures
        r == has_key(sequence@, key),
{
    let mut j: usize = 0;
    while j < sequence.len()
        invariant
            j <= sequence@.len(),
            forall|a: int| 0 <= a < j ==> (#[trigger] sequence@[a]).0 != key,
        decreases sequence@.len() - j,
    {
        if sequence[j].0 == key {
            return true;
        }
        j += 1;
    }
    false
}

/// Whether one of the binds names the key.
pub fn is_key_of_a_bind(binds: &Vec<Bind>, key: KeyCode) -> (r: bool)
    ensures
        r == is_bound_key(binds@, key),
{
    let mut i: usize = 0;
    while i < binds.len()
        invariant
            i <= binds@.len(),
            forall|a: int| 0 <= a < i ==> !has_key((#[trigger] binds@[a]).sequence@, key),
        decreases binds@.len() - i,
    {
        if names_key(&binds[i].sequence, key) {
            return true;
        }
        i += 1;
    }
    false
}

/// Whether the code is among the codes.
pub fn holds_code(codes: &Vec<KeyCode>, code: KeyCode) -> (r: bool)
    ensures
        r == codes@.contains(code),
{
    let mut i: usize = 0;
    while i < codes.len()
        invariant
            i <= codes@.len(),
            forall|a: int| 0 <= a < i ==> codes@[a] != code,
        decreases codes@.len() - i,
    {
        if codes[i] == code {
            return true;
        }
        i += 1;
    }
    false
}

/// Whether one of the keys of the sequence is among the modifiers.
pub fn meets_mods(sequence: &Vec<KeyEntry>, mods: &Vec<KeyCode>) -> (r: bool)
    ensures
        r == meets(sequence@, mods@),
{
    let mut j: usize = 0;
    while j < sequence.len()
        invariant
            j <= sequence@.len(),
            forall|a: int| 0 <= a < j ==> !mods@.contains((#[trigger] sequence@[a]).0),
        decreases sequence@.len() - j,
    {
        if holds_code(mods, sequence[j].0) {
            return true;
        }
        j += 1;
    }
    false
}

/// Whether the modifiers ascend, each is a key of some bind, and every
/// bind with keys has one of them.
pub fn mods_cover_binds(mods: &Vec<KeyCode>, binds: &Vec<Bind>) -> (r: bool)
    ensures
        r == mods_cover(mods@, binds@),
{
    reveal(mods_cover);
    if !codes_ascend(mods) {
        return false;
    }
    let mut m: usize = 0;
    while m < mods.len()
        invariant
            m <= mods@.len(),
            forall|a: int| 0 <= a < m ==> is_bound_key(binds@, #[trigger] mods@[a]),
        decreases mods@.len() - m,
    {
        if !is_key_of_a_bind(binds, mods[m]) {
            proof {
                reveal(mods_cover);
            }
            return false;
        }
        m += 1;
    }
    let mut i: usize = 0;
    while i < binds.len()
        invariant
            i <= binds@.len(),
            forall|a: int|
                0 <= a < i && (#[trigger] binds@[a]).sequence@.len() > 0 ==> meets(
                    binds@[a].sequence@,
                    mods@,
                ),
        decreases binds@.len() - i,
    {
        if binds[i].sequence.len() > 0 && !meets_mods(&binds[i].sequence, mods) {
            proof {
                reveal(mods_cover);
            }
            return false;
        }
        i += 1;
    }
    true
}

/// Whether every submap that the commands enter exists.
pub fn targets_are_known(commands: &Vec<Command>, submaps: &Vec<Submap>) -> (r: bool)
    ensures
        r == targets_exist(commands@, submaps@),
{
    let mut i: usize = 0;
    while i < commands.len()
        invariant
            i <= commands@.len(),
            forall|c: int|
                0 <= c < i ==> match #[trigger] commands@[c] {
                    Command::Internal(Keyword::Enter(name)) => find_submap(submaps@, name@) is Some,
                    _ => true,
                },
        decreases commands@.len() - i,
    {
        match &commands[i] {
            Command::Internal(Keyword::Enter(name)) => {
                if submap_index(submaps, name).is_none() {
                    return false;
                }
            },
            _ => {},
        }
        i += 1;
    }
    true
}

/// Whether every submap that a command of the configuration enters exists.
pub fn all_targets_known(submaps: &Vec<Submap>) -> (r: bool)
    ensures
        r == all_targets_exist(submaps@),
{
    let mut i: usize = 0;
    while i < submaps.len()
        invariant
            i <= submaps@.len(),
            forall|a: int, b: int|
                0 <= a < i && 0 <= b < submaps@[a].binds@.len() ==> targets_exist(
                    (#[trigger] submaps@[a].binds@[b]).args.commands@,
                    submaps@,
                ),
        decreases submaps@.len() - i,
    {
        let mut b: usize = 0;
        while b < submaps[i as usize].binds.len()
            invariant
                i < submaps@.len(),
                b <= submaps@[i as int].binds@.len(),
                forall|c: int|
                    0 <= c < b ==> targets_exist(
                        (#[trigger] submaps@[i as int].binds@[c]).args.commands@,
                        submaps@,
                    ),
            decreases submaps@[i as int].binds@.len() - b,
        {
            if !targets_are_known(&submaps[i].binds[b].args.commands, submaps) {
                return false;
            }
            b += 1;
        }
        i += 1;
    }
    true
}

impl Submap {
    /// What is wrong with the submap, if anything.
    pub fn check(&self) -> (r: Option<Fault>)
        ensures
            r == submap_fault(*self),
            r is None <==> self.wf(),
    {
        if !binds_are_distinct(&self.binds) {
            Some(Fault::DuplicateBind)
        } else if !all_are_keyed(&self.binds) {
            Some(Fault::EmptySequence)
        } else if !all_sorted(&self.binds) {
            Some(Fault::UnsortedSequence)
        } else if !all_are_exact(&self.binds) {
            Some(Fault::InexactBind)
        } else if !mods_cover_binds(&self.mods, &self.binds) {
            Some(Fault::StaleModifiers)
        } else {
            None
        }
    }
}

impl Config {
    /// What is wrong with the configuration, if anything. `None` means that
    /// the engine can run on it.
    pub fn check(&self) -> (r: Option<Fault>)
        ensures
            r == fault_of(self.submaps@),
            r is None <==> self.wf(),
    {
        proof {
            lemma_fault_of(*self);
        }
        let main = "main".to_owned();
        if submap_index(&self.submaps, &main).is_none() {
            return Some(Fault::MissingMain);
        }
        if !names_are_distinct(&self.submaps) {
            return Some(Fault::DuplicateSubmap);
        }
        let mut i: usize = 0;
        while i < self.submaps.len()
            invariant
                i <= self.submaps@.len(),
                find_submap(self.submaps@, "main"@) is Some,
                names_distinct(self.submaps@),
                first_submap_fault(self.submaps@, 0) == first_submap_fault(self.submaps@, i as int),
            decreases self.submaps@.len() - i,
        {
            let fault = self.submaps[i].check();
            if fault.is_some() {
                return fault;
            }
            i += 1;
        }
        if !all_targets_known(&self.submaps) {
            return Some(Fault::UnknownTarget);
        }
        None
    }
}

} // verus!
