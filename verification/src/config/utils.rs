//! Helpers of the configuration: chords from text, modifiers from binds.

use crate::config::keymap::{
    is_named_key, is_plain_name, key_name, key_of_name, keycode_of_name, lemma_key_name,
    name_of_key,
};
use crate::config::{codes_ascending, is_first_key, sorted_by_code, Binds, SequenceType};
use crate::error::MudrasError;
use crate::input::keys::KeyCode;
use crate::input::utils::{KeyEntry, KeyState};
use vstd::prelude::*;
use vstd::std_specs::iter::IteratorSpec;
use vstd::string::*;

verus! {

/// Whether a string is the given text.
pub fn is_text(s: &String, text: &str) -> (r: bool)
    ensures
        r == (s@ == text@),
{
    let other = text.to_owned();
    *s == other
}

/// The characters of a string, one by one.
pub fn chars_of(s: &str) -> (r: Vec<char>)
    ensures
        r@ == s@,
{
    let mut out: Vec<char> = Vec::new();
    let chars = s.chars();
    for c in it: chars
        invariant
            it.seq() == s@,
            out@ == it.seq().take(it.index() as int),
    {
        out.push(c);
        assert(it.seq().take(it.index() + 1) =~= it.seq().take(it.index() as int).push(c));
    }
    assert(out@ =~= s@);
    out
}

/// Every character of the text is an ASCII character.
pub open spec fn is_ascii_text(s: Seq<char>) -> bool {
    forall|i: int| 0 <= i < s.len() ==> #[trigger] s[i] <= '\u{7f}'
}

/// An ASCII capital as its small letter, any other character as it is.
pub open spec fn ascii_lower(c: char) -> char {
    if 'A' <= c <= 'Z' {
        ((c as u8 + 32) as u8) as char
    } else {
        c
    }
}

/// What std's `str::to_lowercase` returns for a string.
pub uninterp spec fn unicode_lowercase(s: Seq<char>) -> Seq<char>;

/// A token in lower case. A token of ASCII characters has each capital
/// replaced by its small letter; any other token is what std's Unicode
/// lowercasing makes of it.
pub open spec fn lowercase(token: Seq<char>) -> Seq<char> {
    if is_ascii_text(token) {
        token.map_values(|c: char| ascii_lower(c))
    } else {
        unicode_lowercase(token)
    }
}

/// std's `str::to_lowercase`, on a string given and returned by its
/// characters. Nothing is claimed of the result but that it is the
/// lowercasing of the argument.
#[verifier::external_body]
fn to_lowercase(token: &Vec<char>) -> (r: Vec<char>)
    ensures
        r@ == unicode_lowercase(token@),
{
    let text: String = token.iter().collect();
    text.to_lowercase().chars().collect()
}

fn lower_char(c: char) -> (r: char)
    requires
        c <= '\u{7f}',
    ensures
        r == ascii_lower(c),
{
    let n = c as u8;
    if 65 <= n && n <= 90 {
        (n + 32) as char
    } else {
        c
    }
}

/// Puts a token in lower case.
pub fn lowercase_token(token: &Vec<char>) -> (r: Vec<char>)
    ensures
        r@ == lowercase(token@),
{
    let mut out: Vec<char> = Vec::new();
    let mut i: usize = 0;
    while i < token.len()
        invariant
            i <= token@.len(),
            is_ascii_text(token@.take(i as int)),
            out@ == token@.take(i as int).map_values(|c: char| ascii_lower(c)),
        decreases token@.len() - i,
    {
        let c = token[i];
        if c > '\u{7f}' {
            assert(!is_ascii_text(token@)) by {
                assert(token@[i as int] == c);
            }
            return to_lowercase(token);
        }
        out.push(lower_char(c));
        proof {
            let grown = token@.take(i + 1);
            assert(grown =~= token@.take(i as int).push(c));
            assert(is_ascii_text(grown)) by {
                assert forall|j: int| 0 <= j < grown.len() implies #[trigger] grown[j] <= '\u{7f}' by {
                    if j < i {
                        assert(token@.take(i as int)[j] == grown[j]);
                    }
                }
            }
            assert(out@ =~= grown.map_values(|c: char| ascii_lower(c)));
        }
        i += 1;
    }
    assert(token@.take(i as int) =~= token@);
    out
}

/// The parts of a text between its `+` signs. A text without one is its
/// own single part, and so is the empty text.
pub open spec fn split_plus(s: Seq<char>) -> Seq<Seq<char>>
    decreases s.len(),
{
    if s.len() == 0 {
        seq![Seq::<char>::empty()]
    } else {
        let front = split_plus(s.drop_last());
        if s.last() == '+' {
            front.push(Seq::<char>::empty())
        } else {
            front.update(front.len() - 1, front.last().push(s.last()))
        }
    }
}

/// A text has at least one part.
pub proof fn lemma_split_plus_len(s: Seq<char>)
    ensures
        split_plus(s).len() >= 1,
    decreases s.len(),
{
    if s.len() > 0 {
        lemma_split_plus_len(s.drop_last());
    }
}

/// The key that one part of a chord names, whatever its case.
pub open spec fn token_key(token: Seq<char>) -> KeyCode {
    key_of_name(lowercase(token))
}

/// The keys that a chord names, in the order of the text.
pub open spec fn chord_keys(text: Seq<char>) -> Seq<KeyCode> {
    split_plus(text).map_values(|t: Seq<char>| token_key(t))
}

/// The state that the key at `i` of `n` has in a chord of the given kind:
/// `Released` for the last key of a release chord, `Pressed` otherwise.
pub open spec fn chord_state(kind: SequenceType, i: int, n: int) -> KeyState {
    if kind == SequenceType::Release && i == n - 1 {
        KeyState::Released
    } else {
        KeyState::Pressed
    }
}

/// The key sequence that a chord stands for.
pub open spec fn chord_sequence(text: Seq<char>, kind: SequenceType) -> Seq<KeyEntry> {
    let keys = chord_keys(text);
    Seq::new(keys.len(), |i: int| (keys[i], chord_state(kind, i, keys.len() as int)))
}

/// Reads a chord such as `Super+T`: the text is split at each `+`, each part
/// is put in lower case and looked up in the table of key names; a part that
/// the table does not hold gives `KEY_RESERVED`. Every key is `Pressed`, but
/// for the last key of a release chord, which is `Released`. This never
/// fails.
pub fn bind_to_keys(bind: &str, sequence_type: &SequenceType) -> (r: Result<
    Vec<KeyEntry>,
    MudrasError,
>)
    ensures
        r is Ok,
        r->Ok_0@ == chord_sequence(bind@, *sequence_type),
{
    let text = chars_of(bind);
    let mut sequence: Vec<KeyEntry> = Vec::new();
    let mut token: Vec<char> = Vec::new();
    let mut i: usize = 0;
    while i < text.len()
        invariant
            i <= text@.len(),
            split_plus(text@.take(i as int)).len() == sequence@.len() + 1,
            token@ == split_plus(text@.take(i as int)).last(),
            forall|j: int|
                0 <= j < sequence@.len() ==> sequence@[j] == (
                    token_key(#[trigger] split_plus(text@.take(i as int))[j]),
                    KeyState::Pressed,
                ),
        decreases text@.len() - i,
    {
        let c = text[i];
        proof {
            assert(text@.take(i + 1).drop_last() =~= text@.take(i as int));
            assert(text@.take(i + 1).last() == c);
        }
        if c == '+' {
            let lowered = lowercase_token(&token);
            sequence.push((keycode_of_name(&lowered), KeyState::Pressed));
            token = Vec::new();
        } else {
            token.push(c);
        }
        i += 1;
    }
    assert(text@.take(i as int) =~= text@);
    let lowered = lowercase_token(&token);
    let last_state = match sequence_type {
        SequenceType::Release => KeyState::Released,
        SequenceType::Press => KeyState::Pressed,
    };
    sequence.push((keycode_of_name(&lowered), last_state));
    assert(sequence@ =~= chord_sequence(bind@, *sequence_type));
    Ok(sequence)
}

/// `e` put into the sequence behind every entry whose key is not above
/// its own.
pub open spec fn insert_by_code(s: Seq<KeyEntry>, e: KeyEntry) -> Seq<KeyEntry>
    decreases s.len(),
{
    if s.len() == 0 {
        seq![e]
    } else if s.last().0 <= e.0 {
        s.push(e)
    } else {
        insert_by_code(s.drop_last(), e).push(s.last())
    }
}

/// The sequence sorted by key code; entries with the same key stay in
/// the order they had.
pub open spec fn sort_by_code(s: Seq<KeyEntry>) -> Seq<KeyEntry>
    decreases s.len(),
{
    if s.len() == 0 {
        Seq::empty()
    } else {
        insert_by_code(sort_by_code(s.drop_last()), s.last())
    }
}

/// Inserting by code is inserting at the place behind which every key is
/// above the new one, and before which the nearest is not.
pub proof fn lemma_insert_by_code_at(s: Seq<KeyEntry>, e: KeyEntry, at: int)
    requires
        0 <= at <= s.len(),
        forall|j: int| at <= j < s.len() ==> s[j].0 > e.0,
        at > 0 ==> s[at - 1].0 <= e.0,
    ensures
        insert_by_code(s, e) == s.insert(at, e),
    decreases s.len(),
{
    if s.len() == 0 {
        assert(s.insert(at, e) =~= seq![e]);
    } else if s.last().0 <= e.0 {
        assert(at == s.len());
        assert(s.insert(at, e) =~= s.push(e));
    } else {
        assert(at < s.len());
        lemma_insert_by_code_at(s.drop_last(), e, at);
        assert(s.drop_last().insert(at, e).push(s.last()) =~= s.insert(at, e));
    }
}

/// Inserting by code keeps a sorted sequence sorted and adds just the new
/// entry.
pub proof fn lemma_insert_by_code(s: Seq<KeyEntry>, e: KeyEntry)
    requires
        sorted_by_code(s),
    ensures
        sorted_by_code(insert_by_code(s, e)),
        insert_by_code(s, e).len() == s.len() + 1,
        insert_by_code(s, e).to_multiset() == s.to_multiset().insert(e),
    decreases s.len(),
{
    s.to_multiset_ensures();
    if s.len() == 0 {
        assert(seq![e] =~= s.push(e));
    } else if s.last().0 <= e.0 {
        let r = s.push(e);
        assert forall|i: int, j: int| 0 <= i <= j < r.len() implies r[i].0 <= r[j].0 by {
            if j == s.len() && i < s.len() {
                assert(s[i].0 <= s[s.len() - 1].0);
            }
        }
    } else {
        let front = s.drop_last();
        assert forall|i: int, j: int| 0 <= i <= j < front.len() implies front[i].0
            <= front[j].0 by {
            assert(s[i].0 <= s[j].0);
        }
        lemma_insert_by_code(front, e);
        let inner = insert_by_code(front, e);
        let r = inner.push(s.last());
        inner.to_multiset_ensures();
        front.to_multiset_ensures();
        assert(s =~= front.push(s.last()));
        assert(r.to_multiset() =~= s.to_multiset().insert(e));
        assert forall|i: int, j: int| 0 <= i <= j < r.len() implies r[i].0 <= r[j].0 by {
            if j == inner.len() && i < inner.len() {
                // Every entry of `inner` is `e` or an entry of `front`.
                assert(inner.to_multiset().count(inner[i]) > 0) by {
                    assert(inner.contains(inner[i]));
                }
                if inner[i] != e {
                    assert(front.to_multiset().count(inner[i]) > 0);
                    assert(front.contains(inner[i]));
                    let k = choose|k: int| 0 <= k < front.len() && front[k] == inner[i];
                    assert(s[k].0 <= s[s.len() - 1].0);
                }
            }
        }
    }
}

/// Sorting by code gives a sorted sequence of the same entries.
pub proof fn lemma_sort_by_code(s: Seq<KeyEntry>)
    ensures
        sorted_by_code(sort_by_code(s)),
        sort_by_code(s).len() == s.len(),
        sort_by_code(s).to_multiset() == s.to_multiset(),
    decreases s.len(),
{
    if s.len() > 0 {
        lemma_sort_by_code(s.drop_last());
        lemma_insert_by_code(sort_by_code(s.drop_last()), s.last());
        s.drop_last().to_multiset_ensures();
        assert(s =~= s.drop_last().push(s.last()));
        assert(s.drop_last().push(s.last()).to_multiset() =~= s.drop_last().to_multiset().insert(
            s.last(),
        ));
    } else {
        assert(s =~= Seq::<KeyEntry>::empty());
    }
}

/// Sorts a key sequence by key code, as binds store it. Entries with the
/// same key keep their order.
pub fn sort_sequence(sequence: &Vec<KeyEntry>) -> (r: Vec<KeyEntry>)
    ensures
        r@ == sort_by_code(sequence@),
        sorted_by_code(r@),
        r@.len() == sequence@.len(),
        r@.to_multiset() == sequence@.to_multiset(),
{
    let mut out: Vec<KeyEntry> = Vec::new();
    let mut i: usize = 0;
    while i < sequence.len()
        invariant
            i <= sequence@.len(),
            out@ == sort_by_code(sequence@.take(i as int)),
            out@.len() == i,
        decreases sequence@.len() - i,
    {
        let e = sequence[i];
        let mut at: usize = out.len();
        while at > 0 && out[at - 1].0 > e.0
            invariant
                at <= out@.len(),
                forall|j: int| at <= j < out@.len() ==> out@[j].0 > e.0,
            decreases at,
        {
            at -= 1;
        }
        proof {
            lemma_insert_by_code_at(out@, e, at as int);
            assert(sequence@.take(i + 1).drop_last() =~= sequence@.take(i as int));
            assert(sequence@.take(i + 1).last() == e);
        }
        out.insert(at, e);
        i += 1;
    }
    proof {
        assert(sequence@.take(i as int) =~= sequence@);
        lemma_sort_by_code(sequence@);
    }
    out
}

/// Whether two key sequences are the same.
pub fn sequence_eq(a: &Vec<KeyEntry>, b: &Vec<KeyEntry>) -> (r: bool)
    ensures
        r == (a@ == b@),
{
    if a.len() != b.len() {
        return false;
    }
    let mut i: usize = 0;
    while i < a.len()
        invariant
            a@.len() == b@.len(),
            i <= a@.len(),
            forall|j: int| 0 <= j < i ==> a@[j] == b@[j],
        decreases a@.len() - i,
    {
        if a[i].0 != b[i].0 || a[i].1 != b[i].1 {
            return false;
        }
        i += 1;
    }
    assert(a@ =~= b@);
    true
}

/// The modifiers of a set of binds: the first key of each sequence,
/// ascending, each once. This never fails.
pub fn get_modifiers(binds: &Binds) -> (r: Result<Vec<KeyCode>, MudrasError>)
    ensures
        r is Ok,
        codes_ascending(r->Ok_0@),
        forall|k: KeyCode| r->Ok_0@.contains(k) <==> is_first_key(binds@, k),
{
    let mut mods: Vec<KeyCode> = Vec::new();
    let mut i: usize = 0;
    while i < binds.len()
        invariant
            i <= binds@.len(),
            codes_ascending(mods@),
            forall|k: KeyCode| mods@.contains(k) <==> is_first_key(binds@.take(i as int), k),
        decreases binds@.len() - i,
    {
        let ghost seen = binds@.take(i as int);
        let ghost grown = binds@.take(i + 1);
        let ghost before = mods@;
        if binds[i].sequence.len() > 0 {
            let key = binds[i].sequence[0].0;
            let mut at: usize = 0;
            while at < mods.len() && mods[at] < key
                invariant
                    at <= mods@.len(),
                    forall|j: int| 0 <= j < at ==> mods@[j] < key,
                decreases mods@.len() - at,
            {
                at += 1;
            }
            if at < mods.len() && mods[at] == key {
                proof {
                    assert(mods@.contains(key));
                }
            } else {
                mods.insert(at, key);
                proof {
                    let after = mods@;
                    assert forall|a: int, b: int| 0 <= a < b < after.len() implies after[a]
                        < after[b] by {
                        let pa = if a < at { a } else { a - 1 };
                        let pb = if b < at { b } else { b - 1 };
                        if a != at && b != at {
                            assert(before[pa] < before[pb]);
                        } else if a == at {
                            assert(before[at as int] <= before[pb]) by {
                                if (at as int) < pb {
                                    assert(before[at as int] < before[pb]);
                                }
                            }
                        }
                    }
                    assert forall|k: KeyCode| after.contains(k) <==> (before.contains(k) || k
                        == key) by {
                        if before.contains(k) {
                            let j = choose|j: int| 0 <= j < before.len() && before[j] == k;
                            let nj = if j < at { j } else { j + 1 };
                            assert(after[nj] == k);
                        }
                        if k == key {
                            assert(after[at as int] == k);
                        }
                        if after.contains(k) {
                            let j = choose|j: int| 0 <= j < after.len() && after[j] == k;
                            if j != at {
                                let pj = if j < at { j } else { j - 1 };
                                assert(before[pj] == k);
                            }
                        }
                    }
                }
            }
            proof {
                assert forall|k: KeyCode| mods@.contains(k) <==> is_first_key(grown, k) by {
                    if is_first_key(grown, k) {
                        let j = choose|j: int|
                            0 <= j < grown.len() && (#[trigger] grown[j]).sequence@.len() > 0
                                && grown[j].sequence@[0].0 == k;
                        if j < i {
                            assert(seen[j] == grown[j]);
                            assert(is_first_key(seen, k));
                        }
                    }
                    if is_first_key(seen, k) {
                        let j = choose|j: int|
                            0 <= j < seen.len() && (#[trigger] seen[j]).sequence@.len() > 0
                                && seen[j].sequence@[0].0 == k;
                        assert(grown[j] == seen[j]);
                    }
                    if k == key {
                        assert(grown[i as int].sequence@[0].0 == k);
                    }
                }
            }
        } else {
            proof {
                assert forall|k: KeyCode| mods@.contains(k) <==> is_first_key(grown, k) by {
                    if is_first_key(grown, k) {
                        let j = choose|j: int|
                            0 <= j < grown.len() && (#[trigger] grown[j]).sequence@.len() > 0
                                && grown[j].sequence@[0].0 == k;
                        assert(seen[j] == grown[j]);
                        assert(is_first_key(seen, k));
                    }
                    if is_first_key(seen, k) {
                        let j = choose|j: int|
                            0 <= j < seen.len() && (#[trigger] seen[j]).sequence@.len() > 0
                                && seen[j].sequence@[0].0 == k;
                        assert(grown[j] == seen[j]);
                    }
                }
            }
        }
        i += 1;
    }
    assert(binds@.take(i as int) =~= binds@);
    Ok(mods)
}

/// The keys of a sequence, without their states.
pub open spec fn codes_of(sequence: Seq<KeyEntry>) -> Seq<KeyCode> {
    sequence.map_values(|e: KeyEntry| e.0)
}

/// The names of the keys, with a `+` between each two.
pub open spec fn join_names(keys: Seq<KeyCode>) -> Seq<char>
    decreases keys.len(),
{
    if keys.len() == 0 {
        Seq::empty()
    } else if keys.len() == 1 {
        key_name(keys[0])
    } else {
        join_names(keys.drop_last()) + seq!['+'] + key_name(keys.last())
    }
}

/// The text of a chord: the names of its keys joined by `+`.
pub open spec fn render_text(sequence: Seq<KeyEntry>) -> Seq<char> {
    join_names(codes_of(sequence))
}

/// The kind of chord that a sequence is: a release chord if its last key
/// is `Released`.
pub open spec fn kind_of(sequence: Seq<KeyEntry>) -> SequenceType {
    if sequence.len() > 0 && sequence.last().1 == KeyState::Released {
        SequenceType::Release
    } else {
        SequenceType::Press
    }
}

/// A sequence as reading a chord gives it: at least one key, each a key
/// that has a name, each `Pressed` but the last, which may be `Released`.
pub open spec fn is_canonical(sequence: Seq<KeyEntry>) -> bool {
    &&& sequence.len() >= 1
    &&& forall|i: int| 0 <= i < sequence.len() ==> is_named_key((#[trigger] sequence[i]).0)
    &&& forall|i: int|
        0 <= i < sequence.len() - 1 ==> (#[trigger] sequence[i]).1 == KeyState::Pressed
    &&& sequence.last().1 != KeyState::Undefined
}

/// A text without `+` is its own single part.
pub proof fn lemma_split_plain(name: Seq<char>)
    requires
        forall|i: int| 0 <= i < name.len() ==> name[i] != '+',
    ensures
        split_plus(name) == seq![name],
    decreases name.len(),
{
    if name.len() > 0 {
        lemma_split_plain(name.drop_last());
        assert(name.drop_last().push(name.last()) =~= name);
        assert(split_plus(name) =~= seq![name]);
    } else {
        assert(name =~= Seq::<char>::empty());
    }
}

/// A `+` and a text without `+` behind a text add one part.
pub proof fn lemma_split_append(front: Seq<char>, name: Seq<char>)
    requires
        forall|i: int| 0 <= i < name.len() ==> name[i] != '+',
    ensures
        split_plus(front + seq!['+'] + name) == split_plus(front).push(name),
    decreases name.len(),
{
    let whole = front + seq!['+'] + name;
    lemma_split_plus_len(front);
    if name.len() == 0 {
        assert(whole.drop_last() =~= front);
        assert(name =~= Seq::<char>::empty());
    } else {
        let shorter = name.drop_last();
        lemma_split_append(front, shorter);
        assert(whole.drop_last() =~= front + seq!['+'] + shorter);
        assert(whole.last() == name.last());
        assert(shorter.push(name.last()) =~= name);
        assert(split_plus(whole) =~= split_plus(front).push(name));
    }
}

/// Splitting the joined names of named keys gives the names back.
pub proof fn lemma_split_join(keys: Seq<KeyCode>)
    requires
        keys.len() >= 1,
        forall|i: int| 0 <= i < keys.len() ==> is_named_key(#[trigger] keys[i]),
    ensures
        split_plus(join_names(keys)) == keys.map_values(|k: KeyCode| key_name(k)),
    decreases keys.len(),
{
    let names = keys.map_values(|k: KeyCode| key_name(k));
    lemma_key_name(keys.last());
    if keys.len() == 1 {
        assert(keys.last() == keys[0]);
        lemma_split_plain(key_name(keys[0]));
        assert(seq![key_name(keys[0])] =~= names);
    } else {
        let front = keys.drop_last();
        assert forall|i: int| 0 <= i < front.len() implies is_named_key(#[trigger] front[i]) by {
            assert(front[i] == keys[i]);
        }
        lemma_split_join(front);
        lemma_split_append(join_names(front), key_name(keys.last()));
        assert(front.map_values(|k: KeyCode| key_name(k)).push(key_name(keys.last())) =~= names);
    }
}

/// A plain name is its own lower case.
pub proof fn lemma_lowercase_plain(name: Seq<char>)
    requires
        is_plain_name(name),
    ensures
        lowercase(name) == name,
{
    assert(is_ascii_text(name));
    assert(name.map_values(|c: char| ascii_lower(c)) =~= name);
}

/// Reading the text of a canonical sequence, as a chord of its kind, gives
/// the sequence back.
pub proof fn lemma_parse_render(sequence: Seq<KeyEntry>)
    requires
        is_canonical(sequence),
    ensures
        chord_sequence(render_text(sequence), kind_of(sequence)) == sequence,
{
    let keys = codes_of(sequence);
    assert forall|i: int| 0 <= i < keys.len() implies is_named_key(#[trigger] keys[i]) by {
        assert(is_named_key(sequence[i].0));
    }
    lemma_split_join(keys);
    let parts = split_plus(render_text(sequence));
    assert forall|i: int| 0 <= i < parts.len() implies token_key(#[trigger] parts[i])
        == keys[i] by {
        assert(is_named_key(sequence[i].0));
        lemma_key_name(keys[i]);
        lemma_lowercase_plain(key_name(keys[i]));
    }
    assert(chord_keys(render_text(sequence)) =~= keys);
    let read = chord_sequence(render_text(sequence), kind_of(sequence));
    assert forall|i: int| 0 <= i < sequence.len() implies read[i] == sequence[i] by {
        if i < sequence.len() - 1 {
            assert(sequence[i].1 == KeyState::Pressed);
        }
    }
    assert(read =~= sequence);
}

/// Writes a sequence as the text of a chord: the names of its keys joined
/// by `+`. The states are not written: the kind of the chord says them.
pub fn render(sequence: &Vec<KeyEntry>) -> (r: String)
    ensures
        r@ == render_text(sequence@),
{
    let mut out = String::new();
    let mut i: usize = 0;
    proof {
        reveal_strlit("+");
        assert(codes_of(sequence@).take(0) =~= Seq::<KeyCode>::empty());
    }
    while i < sequence.len()
        invariant
            i <= sequence@.len(),
            out@ == join_names(codes_of(sequence@).take(i as int)),
            "+"@ == seq!['+'],
        decreases sequence@.len() - i,
    {
        let ghost before = codes_of(sequence@).take(i as int);
        let ghost after = codes_of(sequence@).take(i + 1);
        proof {
            assert(after.drop_last() =~= before);
            assert(after.last() == sequence@[i as int].0);
        }
        if i > 0 {
            out.append("+");
        }
        out.append(name_of_key(sequence[i].0));
        proof {
            if i == 0 {
                assert(before =~= Seq::<KeyCode>::empty());
                assert(out@ =~= key_name(after[0]));
            } else {
                assert("+"@ =~= seq!['+']);
            }
        }
        i += 1;
    }
    assert(codes_of(sequence@).take(i as int) =~= codes_of(sequence@));
    out
}

/// The text with each `~` replaced by `home`.
pub open spec fn replace_tilde(text: Seq<char>, home: Seq<char>) -> Seq<char>
    decreases text.len(),
{
    if text.len() == 0 {
        Seq::empty()
    } else if text.last() == '~' {
        replace_tilde(text.drop_last(), home) + home
    } else {
        replace_tilde(text.drop_last(), home).push(text.last())
    }
}

/// A path with the home directory written out: a path that begins with
/// `~` has every `~` replaced by `home`, any other path stays as it is.
pub open spec fn expanded(relpath: Seq<char>, home: Seq<char>) -> Seq<char> {
    if relpath.len() > 0 && relpath[0] == '~' {
        replace_tilde(relpath, home)
    } else {
        relpath
    }
}

/// Writes the home directory out in a path that begins with `~`. Whether
/// the file is there is for the caller to find out.
pub fn shellexpand(relpath: &str, home: &str) -> (r: String)
    ensures
        r@ == expanded(relpath@, home@),
{
    let n = relpath.unicode_len();
    if n == 0 || relpath.get_char(0) != '~' {
        return relpath.to_owned();
    }
    let mut out = String::new();
    let mut i: usize = 0;
    proof {
        assert(relpath@.take(0) =~= Seq::<char>::empty());
    }
    while i < n
        invariant
            n == relpath@.len(),
            i <= n,
            out@ == replace_tilde(relpath@.take(i as int), home@),
        decreases n - i,
    {
        proof {
            assert(relpath@.take(i + 1).drop_last() =~= relpath@.take(i as int));
            assert(relpath@.take(i + 1).last() == relpath@[i as int]);
        }
        if relpath.get_char(i) == '~' {
            out.append(home);
        } else {
            let piece = relpath.substring_char(i, i + 1);
            proof {
                assert(piece@ =~= seq![relpath@[i as int]]);
                assert(out@ + piece@ =~= out@.push(relpath@[i as int]));
            }
            out.append(piece);
        }
        i += 1;
    }
    proof {
        assert(relpath@.take(i as int) =~= relpath@);
    }
    out
}

/// Where the configuration lies in an installed daemon, the home directory
/// still to be written out.
pub const RELEASE_CONFIG: &'static str = "~/.config/mudras/config.kdl";

/// Where the configuration lies while the daemon is being developed, below
/// the directory of the sources.
pub const DEBUG_CONFIG: &'static str = "/./config.kdl";

/// The path of the configuration of an installed daemon.
pub fn release_path(home: &str) -> (r: String)
    ensures
        r@ == expanded(RELEASE_CONFIG@, home@),
{
    shellexpand(RELEASE_CONFIG, home)
}

/// The path of the configuration below the directory of the sources.
pub fn debug_path(manifest_dir: &str) -> (r: String)
    ensures
        r@ == manifest_dir@ + DEBUG_CONFIG@,
{
    let mut path = manifest_dir.to_owned();
    path.append(DEBUG_CONFIG);
    path
}

} // verus!
