//! Windows virtual-key codes used by the hook and the settings UI.

use vstd::prelude::*;

verus! {

pub const SHIFT: u32 = 0x10;

pub const CONTROL: u32 = 0x11;

pub const MENU: u32 = 0x12;

pub const CAPITAL: u32 = 0x14;

pub const LWIN: u32 = 0x5B;

pub const RWIN: u32 = 0x5C;

pub const LSHIFT: u32 = 0xA0;

pub const RSHIFT: u32 = 0xA1;

pub const LCONTROL: u32 = 0xA2;

pub const RCONTROL: u32 = 0xA3;

pub const LMENU: u32 = 0xA4;

pub const RMENU: u32 = 0xA5;

} // verus!
