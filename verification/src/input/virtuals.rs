//! The three virtual devices through which events leave the daemon.
//!
//! Each has a name by which the daemon knows its own devices again, so
//! that it never listens to what it emits.

use crate::input::keys::KeyCode;
use vstd::prelude::*;

verus! {

pub const VIRTUAL_KEYBOARD: &'static str = "Mudras virtual keyboard";

pub const VIRTUAL_SWITCH: &'static str = "Mudras virtual switch";

pub const VIRTUAL_POINTER: &'static str = "Mudras virtual pointer";

/// The codes below this one are the key codes there are.
pub const KEY_COUNT: u16 = 0x300;

/// The relative axes, from `REL_X` to `REL_HWHEEL_HI_RES`.
pub const RELATIVE_AXIS_COUNT: u16 = 13;

/// The lid switch.
pub const SW_LID: u16 = 0;

/// The tablet-mode switch.
pub const SW_TABLET_MODE: u16 = 1;

/// The name is that of one of the daemon's own devices.
pub open spec fn is_virtual_name(name: Seq<char>) -> bool {
    name == VIRTUAL_KEYBOARD@ || name == VIRTUAL_SWITCH@ || name == VIRTUAL_POINTER@
}

/// What a virtual device is created with: its name and the codes it
/// advertises.
#[derive(Clone, Debug, PartialEq)]
pub struct VirtualDevice {
    pub name: String,
    pub keys: Vec<KeyCode>,
    pub switches: Vec<u16>,
    pub relative_axes: Vec<u16>,
}

/// The codes from 0 up to `count`, which is left out.
fn codes_below(count: u16) -> (r: Vec<u16>)
    ensures
        r@.len() == count,
        forall|i: int| 0 <= i < count ==> r@[i] == i,
{
    let mut out: Vec<u16> = Vec::new();
    let mut code: u16 = 0;
    while code < count
        invariant
            code <= count,
            out@.len() == code,
            forall|i: int| 0 <= i < code ==> out@[i] == i,
        decreases count - code,
    {
        out.push(code);
        code += 1;
    }
    out
}

/// The virtual keyboard: it advertises every key code.
pub fn create_keyboard() -> (r: VirtualDevice)
    ensures
        r.name@ == VIRTUAL_KEYBOARD@,
        r.keys@.len() == KEY_COUNT,
        forall|i: int| 0 <= i < KEY_COUNT ==> r.keys@[i] == i,
        r.switches@.len() == 0,
        r.relative_axes@.len() == 0,
{
    VirtualDevice {
        name: VIRTUAL_KEYBOARD.to_owned(),
        keys: codes_below(KEY_COUNT),
        switches: Vec::new(),
        relative_axes: Vec::new(),
    }
}

/// The virtual switches: the lid and the tablet mode.
pub fn create_switch() -> (r: VirtualDevice)
    ensures
        r.name@ == VIRTUAL_SWITCH@,
        r.keys@.len() == 0,
        r.switches@ == seq![SW_LID, SW_TABLET_MODE],
        r.relative_axes@.len() == 0,
{
    let mut switches: Vec<u16> = Vec::new();
    switches.push(SW_LID);
    switches.push(SW_TABLET_MODE);
    assert(switches@ =~= seq![SW_LID, SW_TABLET_MODE]);
    VirtualDevice {
        name: VIRTUAL_SWITCH.to_owned(),
        keys: Vec::new(),
        switches,
        relative_axes: Vec::new(),
    }
}

/// The virtual pointer, kept for old setups: it advertises the relative
/// axes.
pub fn create_pointer() -> (r: VirtualDevice)
    ensures
        r.name@ == VIRTUAL_POINTER@,
        r.keys@.len() == 0,
        r.switches@.len() == 0,
        r.relative_axes@.len() == RELATIVE_AXIS_COUNT,
        forall|i: int| 0 <= i < RELATIVE_AXIS_COUNT ==> r.relative_axes@[i] == i,
{
    VirtualDevice {
        name: VIRTUAL_POINTER.to_owned(),
        keys: Vec::new(),
        switches: Vec::new(),
        relative_axes: codes_below(RELATIVE_AXIS_COUNT),
    }
}

} // verus!
