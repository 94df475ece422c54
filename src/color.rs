//! Colors as `0RGB` words.
use vstd::prelude::*;

verus! {

pub const WHITE: u32 = 0x00FF_FFFF;

pub const GREY: u32 = 0x0080_8080;

pub const RED: u32 = 0x00FF_0000;

pub const BLACK: u32 = 0x0000_0000;

pub const BLUE: u32 = 0x0000_00FF;

pub const PURPLE: u32 = 0x0080_0080;

pub const YELLOW: u32 = 0x00FF_FF00;

pub const ORANGE: u32 = 0x00FF_A500;

} // verus!
