//! The fixed table from key names, as chords spell them, to key codes.

use crate::input::keys;
use crate::input::keys::KeyCode;
use vstd::prelude::*;
use vstd::string::*;

verus! {

/// The key that a one-letter name stands for: a letter or a digit.
pub open spec fn key_of_char(c: char) -> KeyCode {
    match c {
        '1' => keys::KEY_1,
        '2' => keys::KEY_2,
        '3' => keys::KEY_3,
        '4' => keys::KEY_4,
        '5' => keys::KEY_5,
        '6' => keys::KEY_6,
        '7' => keys::KEY_7,
        '8' => keys::KEY_8,
        '9' => keys::KEY_9,
        '0' => keys::KEY_0,
        'q' => keys::KEY_Q,
        'w' => keys::KEY_W,
        'e' => keys::KEY_E,
        'r' => keys::KEY_R,
        't' => keys::KEY_T,
        'y' => keys::KEY_Y,
        'u' => keys::KEY_U,
        'i' => keys::KEY_I,
        'o' => keys::KEY_O,
        'p' => keys::KEY_P,
        'a' => keys::KEY_A,
        's' => keys::KEY_S,
        'd' => keys::KEY_D,
        'f' => keys::KEY_F,
        'g' => keys::KEY_G,
        'h' => keys::KEY_H,
        'j' => keys::KEY_J,
        'k' => keys::KEY_K,
        'l' => keys::KEY_L,
        'z' => keys::KEY_Z,
        'x' => keys::KEY_X,
        'c' => keys::KEY_C,
        'v' => keys::KEY_V,
        'b' => keys::KEY_B,
        'n' => keys::KEY_N,
        'm' => keys::KEY_M,
        _ => keys::KEY_RESERVED,
    }
}

/// The key that a longer name stands for.
pub open spec fn key_of_word(name: Seq<char>) -> KeyCode {
    if name == "escape"@ {
        keys::KEY_ESC
    } else if name == "super"@ {
        keys::KEY_LEFTMETA
    } else if name == "super_l"@ {
        keys::KEY_LEFTMETA
    } else if name == "super_r"@ {
        keys::KEY_RIGHTMETA
    } else if name == "ctrl"@ {
        keys::KEY_LEFTCTRL
    } else if name == "ctrl_l"@ {
        keys::KEY_LEFTCTRL
    } else if name == "ctrl_r"@ {
        keys::KEY_RIGHTCTRL
    } else if name == "shift"@ {
        keys::KEY_LEFTSHIFT
    } else if name == "shift_l"@ {
        keys::KEY_LEFTSHIFT
    } else if name == "shift_r"@ {
        keys::KEY_RIGHTSHIFT
    } else if name == "alt"@ {
        keys::KEY_LEFTALT
    } else if name == "tab"@ {
        keys::KEY_TAB
    } else if name == "backspace"@ {
        keys::KEY_BACKSPACE
    } else if name == "enter"@ {
        keys::KEY_ENTER
    } else if name == "space"@ {
        keys::KEY_SPACE
    } else if name == "left"@ {
        keys::KEY_LEFT
    } else if name == "down"@ {
        keys::KEY_DOWN
    } else if name == "up"@ {
        keys::KEY_UP
    } else if name == "right"@ {
        keys::KEY_RIGHT
    } else {
        keys::KEY_RESERVED
    }
}

/// The key that a name in lower case stands for; `KEY_RESERVED` for a name
/// that the table does not hold.
pub open spec fn key_of_name(name: Seq<char>) -> KeyCode {
    if name.len() == 1 {
        key_of_char(name[0])
    } else {
        key_of_word(name)
    }
}

fn char_key(c: char) -> (r: KeyCode)
    ensures
        r == key_of_char(c),
{
    match c {
        '1' => keys::KEY_1,
        '2' => keys::KEY_2,
        '3' => keys::KEY_3,
        '4' => keys::KEY_4,
        '5' => keys::KEY_5,
        '6' => keys::KEY_6,
        '7' => keys::KEY_7,
        '8' => keys::KEY_8,
        '9' => keys::KEY_9,
        '0' => keys::KEY_0,
        'q' => keys::KEY_Q,
        'w' => keys::KEY_W,
        'e' => keys::KEY_E,
        'r' => keys::KEY_R,
        't' => keys::KEY_T,
        'y' => keys::KEY_Y,
        'u' => keys::KEY_U,
        'i' => keys::KEY_I,
        'o' => keys::KEY_O,
        'p' => keys::KEY_P,
        'a' => keys::KEY_A,
        's' => keys::KEY_S,
        'd' => keys::KEY_D,
        'f' => keys::KEY_F,
        'g' => keys::KEY_G,
        'h' => keys::KEY_H,
        'j' => keys::KEY_J,
        'k' => keys::KEY_K,
        'l' => keys::KEY_L,
        'z' => keys::KEY_Z,
        'x' => keys::KEY_X,
        'c' => keys::KEY_C,
        'v' => keys::KEY_V,
        'b' => keys::KEY_B,
        'n' => keys::KEY_N,
        'm' => keys::KEY_M,
        _ => keys::KEY_RESERVED,
    }
}

/// Whether `name` spells `word`.
fn is_word(name: &Vec<char>, word: &str) -> (r: bool)
    ensures
        r == (name@ == word@),
{
    let n: usize = word.unicode_len();
    if name.len() != n {
        return false;
    }
    let mut i: usize = 0;
    while i < n
        invariant
            n == word@.len(),
            n == name@.len(),
            i <= n,
            forall|j: int| 0 <= j < i ==> name@[j] == word@[j],
        decreases n - i,
    {
        if name[i] != word.get_char(i) {
            return false;
        }
        i += 1;
    }
    assert(name@ =~= word@);
    true
}

fn word_key(name: &Vec<char>) -> (r: KeyCode)
    ensures
        r == key_of_word(name@),
{
    if is_word(name, "escape") {
        keys::KEY_ESC
    } else if is_word(name, "super") {
        keys::KEY_LEFTMETA
    } else if is_word(name, "super_l") {
        keys::KEY_LEFTMETA
    } else if is_word(name, "super_r") {
        keys::KEY_RIGHTMETA
    } else if is_word(name, "ctrl") {
        keys::KEY_LEFTCTRL
    } else if is_word(name, "ctrl_l") {
        keys::KEY_LEFTCTRL
    } else if is_word(name, "ctrl_r") {
        keys::KEY_RIGHTCTRL
    } else if is_word(name, "shift") {
        keys::KEY_LEFTSHIFT
    } else if is_word(name, "shift_l") {
        keys::KEY_LEFTSHIFT
    } else if is_word(name, "shift_r") {
        keys::KEY_RIGHTSHIFT
    } else if is_word(name, "alt") {
        keys::KEY_LEFTALT
    } else if is_word(name, "tab") {
        keys::KEY_TAB
    } else if is_word(name, "backspace") {
        keys::KEY_BACKSPACE
    } else if is_word(name, "enter") {
        keys::KEY_ENTER
    } else if is_word(name, "space") {
        keys::KEY_SPACE
    } else if is_word(name, "left") {
        keys::KEY_LEFT
    } else if is_word(name, "down") {
        keys::KEY_DOWN
    } else if is_word(name, "up") {
        keys::KEY_UP
    } else if is_word(name, "right") {
        keys::KEY_RIGHT
    } else {
        keys::KEY_RESERVED
    }
}

/// Looks a name up in the table. The name is taken as it is: a caller that
/// wants `Super` to be found puts it in lower case first.
pub fn keycode_of_name(name: &Vec<char>) -> (r: KeyCode)
    ensures
        r == key_of_name(name@),
{
    if name.len() == 1 {
        char_key(name[0])
    } else {
        word_key(name)
    }
}

/// The key is one that the table of names holds, or `KEY_RESERVED`.
pub open spec fn is_named_key(code: KeyCode) -> bool {
    code == keys::KEY_RESERVED
    || code == keys::KEY_ESC
    || code == keys::KEY_LEFTMETA
    || code == keys::KEY_RIGHTMETA
    || code == keys::KEY_LEFTCTRL
    || code == keys::KEY_RIGHTCTRL
    || code == keys::KEY_LEFTSHIFT
    || code == keys::KEY_RIGHTSHIFT
    || code == keys::KEY_LEFTALT
    || code == keys::KEY_TAB
    || code == keys::KEY_BACKSPACE
    || code == keys::KEY_ENTER
    || code == keys::KEY_SPACE
    || code == keys::KEY_LEFT
    || code == keys::KEY_DOWN
    || code == keys::KEY_UP
    || code == keys::KEY_RIGHT
    || code == keys::KEY_1
    || code == keys::KEY_2
    || code == keys::KEY_3
    || code == keys::KEY_4
    || code == keys::KEY_5
    || code == keys::KEY_6
    || code == keys::KEY_7
    || code == keys::KEY_8
    || code == keys::KEY_9
    || code == keys::KEY_0
    || code == keys::KEY_Q
    || code == keys::KEY_W
    || code == keys::KEY_E
    || code == keys::KEY_R
    || code == keys::KEY_T
    || code == keys::KEY_Y
    || code == keys::KEY_U
    || code == keys::KEY_I
    || code == keys::KEY_O
    || code == keys::KEY_P
    || code == keys::KEY_A
    || code == keys::KEY_S
    || code == keys::KEY_D
    || code == keys::KEY_F
    || code == keys::KEY_G
    || code == keys::KEY_H
    || code == keys::KEY_J
    || code == keys::KEY_K
    || code == keys::KEY_L
    || code == keys::KEY_Z
    || code == keys::KEY_X
    || code == keys::KEY_C
    || code == keys::KEY_V
    || code == keys::KEY_B
    || code == keys::KEY_N
    || code == keys::KEY_M
}

/// The name a key is written with: the first of the names that the table
/// holds for it, and the empty name for `KEY_RESERVED`.
pub open spec fn key_name(code: KeyCode) -> Seq<char> {
    if code == keys::KEY_ESC {
        "escape"@
    } else if code == keys::KEY_LEFTMETA {
        "super"@
    } else if code == keys::KEY_RIGHTMETA {
        "super_r"@
    } else if code == keys::KEY_LEFTCTRL {
        "ctrl"@
    } else if code == keys::KEY_RIGHTCTRL {
        "ctrl_r"@
    } else if code == keys::KEY_LEFTSHIFT {
        "shift"@
    } else if code == keys::KEY_RIGHTSHIFT {
        "shift_r"@
    } else if code == keys::KEY_LEFTALT {
        "alt"@
    } else if code == keys::KEY_TAB {
        "tab"@
    } else if code == keys::KEY_BACKSPACE {
        "backspace"@
    } else if code == keys::KEY_ENTER {
        "enter"@
    } else if code == keys::KEY_SPACE {
        "space"@
    } else if code == keys::KEY_LEFT {
        "left"@
    } else if code == keys::KEY_DOWN {
        "down"@
    } else if code == keys::KEY_UP {
        "up"@
    } else if code == keys::KEY_RIGHT {
        "right"@
    } else if code == keys::KEY_1 {
        "1"@
    } else if code == keys::KEY_2 {
        "2"@
    } else if code == keys::KEY_3 {
        "3"@
    } else if code == keys::KEY_4 {
        "4"@
    } else if code == keys::KEY_5 {
        "5"@
    } else if code == keys::KEY_6 {
        "6"@
    } else if code == keys::KEY_7 {
        "7"@
    } else if code == keys::KEY_8 {
        "8"@
    } else if code == keys::KEY_9 {
        "9"@
    } else if code == keys::KEY_0 {
        "0"@
    } else if code == keys::KEY_Q {
        "q"@
    } else if code == keys::KEY_W {
        "w"@
    } else if code == keys::KEY_E {
        "e"@
    } else if code == keys::KEY_R {
        "r"@
    } else if code == keys::KEY_T {
        "t"@
    } else if code == keys::KEY_Y {
        "y"@
    } else if code == keys::KEY_U {
        "u"@
    } else if code == keys::KEY_I {
        "i"@
    } else if code == keys::KEY_O {
        "o"@
    } else if code == keys::KEY_P {
        "p"@
    } else if code == keys::KEY_A {
        "a"@
    } else if code == keys::KEY_S {
        "s"@
    } else if code == keys::KEY_D {
        "d"@
    } else if code == keys::KEY_F {
        "f"@
    } else if code == keys::KEY_G {
        "g"@
    } else if code == keys::KEY_H {
        "h"@
    } else if code == keys::KEY_J {
        "j"@
    } else if code == keys::KEY_K {
        "k"@
    } else if code == keys::KEY_L {
        "l"@
    } else if code == keys::KEY_Z {
        "z"@
    } else if code == keys::KEY_X {
        "x"@
    } else if code == keys::KEY_C {
        "c"@
    } else if code == keys::KEY_V {
        "v"@
    } else if code == keys::KEY_B {
        "b"@
    } else if code == keys::KEY_N {
        "n"@
    } else if code == keys::KEY_M {
        "m"@
    } else {
        ""@
    }
}

/// The name a key is written with.
pub fn name_of_key(code: KeyCode) -> (r: &'static str)
    ensures
        r@ == key_name(code),
{
    if code == keys::KEY_ESC {
        "escape"
    } else if code == keys::KEY_LEFTMETA {
        "super"
    } else if code == keys::KEY_RIGHTMETA {
        "super_r"
    } else if code == keys::KEY_LEFTCTRL {
        "ctrl"
    } else if code == keys::KEY_RIGHTCTRL {
        "ctrl_r"
    } else if code == keys::KEY_LEFTSHIFT {
        "shift"
    } else if code == keys::KEY_RIGHTSHIFT {
        "shift_r"
    } else if code == keys::KEY_LEFTALT {
        "alt"
    } else if code == keys::KEY_TAB {
        "tab"
    } else if code == keys::KEY_BACKSPACE {
        "backspace"
    } else if code == keys::KEY_ENTER {
        "enter"
    } else if code == keys::KEY_SPACE {
        "space"
    } else if code == keys::KEY_LEFT {
        "left"
    } else if code == keys::KEY_DOWN {
        "down"
    } else if code == keys::KEY_UP {
        "up"
    } else if code == keys::KEY_RIGHT {
        "right"
    } else if code == keys::KEY_1 {
        "1"
    } else if code == keys::KEY_2 {
        "2"
    } else if code == keys::KEY_3 {
        "3"
    } else if code == keys::KEY_4 {
        "4"
    } else if code == keys::KEY_5 {
        "5"
    } else if code == keys::KEY_6 {
        "6"
    } else if code == keys::KEY_7 {
        "7"
    } else if code == keys::KEY_8 {
        "8"
    } else if code == keys::KEY_9 {
        "9"
    } else if code == keys::KEY_0 {
        "0"
    } else if code == keys::KEY_Q {
        "q"
    } else if code == keys::KEY_W {
        "w"
    } else if code == keys::KEY_E {
        "e"
    } else if code == keys::KEY_R {
        "r"
    } else if code == keys::KEY_T {
        "t"
    } else if code == keys::KEY_Y {
        "y"
    } else if code == keys::KEY_U {
        "u"
    } else if code == keys::KEY_I {
        "i"
    } else if code == keys::KEY_O {
        "o"
    } else if code == keys::KEY_P {
        "p"
    } else if code == keys::KEY_A {
        "a"
    } else if code == keys::KEY_S {
        "s"
    } else if code == keys::KEY_D {
        "d"
    } else if code == keys::KEY_F {
        "f"
    } else if code == keys::KEY_G {
        "g"
    } else if code == keys::KEY_H {
        "h"
    } else if code == keys::KEY_J {
        "j"
    } else if code == keys::KEY_K {
        "k"
    } else if code == keys::KEY_L {
        "l"
    } else if code == keys::KEY_Z {
        "z"
    } else if code == keys::KEY_X {
        "x"
    } else if code == keys::KEY_C {
        "c"
    } else if code == keys::KEY_V {
        "v"
    } else if code == keys::KEY_B {
        "b"
    } else if code == keys::KEY_N {
        "n"
    } else if code == keys::KEY_M {
        "m"
    } else {
        ""
    }
}

/// What the word names of the table are made of.
proof fn lemma_words()
    ensures
        "escape"@.len() == 6,
        "escape"@[0] == 'e',
        "escape"@[1] == 's',
        "escape"@[2] == 'c',
        "escape"@[3] == 'a',
        "escape"@[4] == 'p',
        "escape"@[5] == 'e',
        "super"@.len() == 5,
        "super"@[0] == 's',
        "super"@[1] == 'u',
        "super"@[2] == 'p',
        "super"@[3] == 'e',
        "super"@[4] == 'r',
        "super_l"@.len() == 7,
        "super_l"@[0] == 's',
        "super_l"@[1] == 'u',
        "super_l"@[2] == 'p',
        "super_l"@[3] == 'e',
        "super_l"@[4] == 'r',
        "super_l"@[5] == '_',
        "super_l"@[6] == 'l',
        "super_r"@.len() == 7,
        "super_r"@[0] == 's',
        "super_r"@[1] == 'u',
        "super_r"@[2] == 'p',
        "super_r"@[3] == 'e',
        "super_r"@[4] == 'r',
        "super_r"@[5] == '_',
        "super_r"@[6] == 'r',
        "ctrl"@.len() == 4,
        "ctrl"@[0] == 'c',
        "ctrl"@[1] == 't',
        "ctrl"@[2] == 'r',
        "ctrl"@[3] == 'l',
        "ctrl_l"@.len() == 6,
        "ctrl_l"@[0] == 'c',
        "ctrl_l"@[1] == 't',
        "ctrl_l"@[2] == 'r',
        "ctrl_l"@[3] == 'l',
        "ctrl_l"@[4] == '_',
        "ctrl_l"@[5] == 'l',
        "ctrl_r"@.len() == 6,
        "ctrl_r"@[0] == 'c',
        "ctrl_r"@[1] == 't',
        "ctrl_r"@[2] == 'r',
        "ctrl_r"@[3] == 'l',
        "ctrl_r"@[4] == '_',
        "ctrl_r"@[5] == 'r',
        "shift"@.len() == 5,
        "shift"@[0] == 's',
        "shift"@[1] == 'h',
        "shift"@[2] == 'i',
        "shift"@[3] == 'f',
        "shift"@[4] == 't',
        "shift_l"@.len() == 7,
        "shift_l"@[0] == 's',
        "shift_l"@[1] == 'h',
        "shift_l"@[2] == 'i',
        "shift_l"@[3] == 'f',
        "shift_l"@[4] == 't',
        "shift_l"@[5] == '_',
        "shift_l"@[6] == 'l',
        "shift_r"@.len() == 7,
        "shift_r"@[0] == 's',
        "shift_r"@[1] == 'h',
        "shift_r"@[2] == 'i',
        "shift_r"@[3] == 'f',
        "shift_r"@[4] == 't',
        "shift_r"@[5] == '_',
        "shift_r"@[6] == 'r',
        "alt"@.len() == 3,
        "alt"@[0] == 'a',
        "alt"@[1] == 'l',
        "alt"@[2] == 't',
        "tab"@.len() == 3,
        "tab"@[0] == 't',
        "tab"@[1] == 'a',
        "tab"@[2] == 'b',
        "backspace"@.len() == 9,
        "backspace"@[0] == 'b',
        "backspace"@[1] == 'a',
        "backspace"@[2] == 'c',
        "backspace"@[3] == 'k',
        "backspace"@[4] == 's',
        "backspace"@[5] == 'p',
        "backspace"@[6] == 'a',
        "backspace"@[7] == 'c',
        "backspace"@[8] == 'e',
        "enter"@.len() == 5,
        "enter"@[0] == 'e',
        "enter"@[1] == 'n',
        "enter"@[2] == 't',
        "enter"@[3] == 'e',
        "enter"@[4] == 'r',
        "space"@.len() == 5,
        "space"@[0] == 's',
        "space"@[1] == 'p',
        "space"@[2] == 'a',
        "space"@[3] == 'c',
        "space"@[4] == 'e',
        "left"@.len() == 4,
        "left"@[0] == 'l',
        "left"@[1] == 'e',
        "left"@[2] == 'f',
        "left"@[3] == 't',
        "down"@.len() == 4,
        "down"@[0] == 'd',
        "down"@[1] == 'o',
        "down"@[2] == 'w',
        "down"@[3] == 'n',
        "up"@.len() == 2,
        "up"@[0] == 'u',
        "up"@[1] == 'p',
        "right"@.len() == 5,
        "right"@[0] == 'r',
        "right"@[1] == 'i',
        "right"@[2] == 'g',
        "right"@[3] == 'h',
        "right"@[4] == 't',
{
    reveal_strlit("escape");
    reveal_strlit("super");
    reveal_strlit("super_l");
    reveal_strlit("super_r");
    reveal_strlit("ctrl");
    reveal_strlit("ctrl_l");
    reveal_strlit("ctrl_r");
    reveal_strlit("shift");
    reveal_strlit("shift_l");
    reveal_strlit("shift_r");
    reveal_strlit("alt");
    reveal_strlit("tab");
    reveal_strlit("backspace");
    reveal_strlit("enter");
    reveal_strlit("space");
    reveal_strlit("left");
    reveal_strlit("down");
    reveal_strlit("up");
    reveal_strlit("right");
}

/// What the one-letter names of the table are made of.
proof fn lemma_letters()
    ensures
        ""@.len() == 0,
        "1"@.len() == 1,
        "1"@[0] == '1',
        "2"@.len() == 1,
        "2"@[0] == '2',
        "3"@.len() == 1,
        "3"@[0] == '3',
        "4"@.len() == 1,
        "4"@[0] == '4',
        "5"@.len() == 1,
        "5"@[0] == '5',
        "6"@.len() == 1,
        "6"@[0] == '6',
        "7"@.len() == 1,
        "7"@[0] == '7',
        "8"@.len() == 1,
        "8"@[0] == '8',
        "9"@.len() == 1,
        "9"@[0] == '9',
        "0"@.len() == 1,
        "0"@[0] == '0',
        "q"@.len() == 1,
        "q"@[0] == 'q',
        "w"@.len() == 1,
        "w"@[0] == 'w',
        "e"@.len() == 1,
        "e"@[0] == 'e',
        "r"@.len() == 1,
        "r"@[0] == 'r',
        "t"@.len() == 1,
        "t"@[0] == 't',
        "y"@.len() == 1,
        "y"@[0] == 'y',
        "u"@.len() == 1,
        "u"@[0] == 'u',
        "i"@.len() == 1,
        "i"@[0] == 'i',
        "o"@.len() == 1,
        "o"@[0] == 'o',
        "p"@.len() == 1,
        "p"@[0] == 'p',
        "a"@.len() == 1,
        "a"@[0] == 'a',
        "s"@.len() == 1,
        "s"@[0] == 's',
        "d"@.len() == 1,
        "d"@[0] == 'd',
        "f"@.len() == 1,
        "f"@[0] == 'f',
        "g"@.len() == 1,
        "g"@[0] == 'g',
        "h"@.len() == 1,
        "h"@[0] == 'h',
        "j"@.len() == 1,
        "j"@[0] == 'j',
        "k"@.len() == 1,
        "k"@[0] == 'k',
        "l"@.len() == 1,
        "l"@[0] == 'l',
        "z"@.len() == 1,
        "z"@[0] == 'z',
        "x"@.len() == 1,
        "x"@[0] == 'x',
        "c"@.len() == 1,
        "c"@[0] == 'c',
        "v"@.len() == 1,
        "v"@[0] == 'v',
        "b"@.len() == 1,
        "b"@[0] == 'b',
        "n"@.len() == 1,
        "n"@[0] == 'n',
        "m"@.len() == 1,
        "m"@[0] == 'm',
{
    reveal_strlit("");
    reveal_strlit("1");
    reveal_strlit("2");
    reveal_strlit("3");
    reveal_strlit("4");
    reveal_strlit("5");
    reveal_strlit("6");
    reveal_strlit("7");
    reveal_strlit("8");
    reveal_strlit("9");
    reveal_strlit("0");
    reveal_strlit("q");
    reveal_strlit("w");
    reveal_strlit("e");
    reveal_strlit("r");
    reveal_strlit("t");
    reveal_strlit("y");
    reveal_strlit("u");
    reveal_strlit("i");
    reveal_strlit("o");
    reveal_strlit("p");
    reveal_strlit("a");
    reveal_strlit("s");
    reveal_strlit("d");
    reveal_strlit("f");
    reveal_strlit("g");
    reveal_strlit("h");
    reveal_strlit("j");
    reveal_strlit("k");
    reveal_strlit("l");
    reveal_strlit("z");
    reveal_strlit("x");
    reveal_strlit("c");
    reveal_strlit("v");
    reveal_strlit("b");
    reveal_strlit("n");
    reveal_strlit("m");
}

/// A name is written in small ASCII letters, digits and `_`: it has no
/// capital, no `+` and nothing beyond ASCII.
pub open spec fn is_plain_name(name: Seq<char>) -> bool {
    forall|i: int|
        0 <= i < name.len() ==> (#[trigger] name[i]) <= '\u{7f}' && name[i] != '+' && !('A'
            <= name[i] <= 'Z')
}

/// The name of a named key is plain, and the table leads from it back to
/// the key.
pub proof fn lemma_key_name(code: KeyCode)
    requires
        is_named_key(code),
    ensures
        is_plain_name(key_name(code)),
        key_of_name(key_name(code)) == code,
{
    lemma_words();
    lemma_letters();
}

} // verus!
