//! Key codes of the kernel's evdev namespace that chords can name.

use vstd::prelude::*;

verus! {

/// A physical key, numbered as the kernel numbers it.
pub type KeyCode = u16;

pub const KEY_RESERVED: KeyCode = 0;
pub const KEY_ESC: KeyCode = 1;
pub const KEY_1: KeyCode = 2;
pub const KEY_2: KeyCode = 3;
pub const KEY_3: KeyCode = 4;
pub const KEY_4: KeyCode = 5;
pub const KEY_5: KeyCode = 6;
pub const KEY_6: KeyCode = 7;
pub const KEY_7: KeyCode = 8;
pub const KEY_8: KeyCode = 9;
pub const KEY_9: KeyCode = 10;
pub const KEY_0: KeyCode = 11;
pub const KEY_BACKSPACE: KeyCode = 14;
pub const KEY_TAB: KeyCode = 15;
pub const KEY_Q: KeyCode = 16;
pub const KEY_W: KeyCode = 17;
pub const KEY_E: KeyCode = 18;
pub const KEY_R: KeyCode = 19;
pub const KEY_T: KeyCode = 20;
pub const KEY_Y: KeyCode = 21;
pub const KEY_U: KeyCode = 22;
pub const KEY_I: KeyCode = 23;
pub const KEY_O: KeyCode = 24;
pub const KEY_P: KeyCode = 25;
pub const KEY_ENTER: KeyCode = 28;
pub const KEY_LEFTCTRL: KeyCode = 29;
pub const KEY_A: KeyCode = 30;
pub const KEY_S: KeyCode = 31;
pub const KEY_D: KeyCode = 32;
pub const KEY_F: KeyCode = 33;
pub const KEY_G: KeyCode = 34;
pub const KEY_H: KeyCode = 35;
pub const KEY_J: KeyCode = 36;
pub const KEY_K: KeyCode = 37;
pub const KEY_L: KeyCode = 38;
pub const KEY_LEFTSHIFT: KeyCode = 42;
pub const KEY_Z: KeyCode = 44;
pub const KEY_X: KeyCode = 45;
pub const KEY_C: KeyCode = 46;
pub const KEY_V: KeyCode = 47;
pub const KEY_B: KeyCode = 48;
pub const KEY_N: KeyCode = 49;
pub const KEY_M: KeyCode = 50;
pub const KEY_RIGHTSHIFT: KeyCode = 54;
pub const KEY_LEFTALT: KeyCode = 56;
pub const KEY_SPACE: KeyCode = 57;
pub const KEY_RIGHTCTRL: KeyCode = 97;
pub const KEY_UP: KeyCode = 103;
pub const KEY_LEFT: KeyCode = 105;
pub const KEY_RIGHT: KeyCode = 106;
pub const KEY_DOWN: KeyCode = 108;
pub const KEY_LEFTMETA: KeyCode = 125;
pub const KEY_RIGHTMETA: KeyCode = 126;

} // verus!
