//! The colors of the monitor, as `0xRRGGBB`.
//!
//! Text and data belong on [`BASE`], [`MANTLE`], [`CRUST`] or [`SURFACE0`].
//! [`SURFACE1`] is for borders and grids, and nothing is written on it.

use vstd::prelude::*;

verus! {

pub const BASE: u32 = 0x1e1e2e;

pub const MANTLE: u32 = 0x181825;

pub const CRUST: u32 = 0x11111b;

pub const SURFACE0: u32 = 0x313244;

pub const SURFACE1: u32 = 0x45475a;

pub const TEXT: u32 = 0xcdd6f4;

pub const SUBTEXT: u32 = 0xa6adc8;

pub const MAUVE: u32 = 0xcba6f7;

pub const BLUE: u32 = 0x89b4fa;

pub const GREEN: u32 = 0xa6e3a1;

pub const TEAL: u32 = 0x94e2d5;

pub const PEACH: u32 = 0xfab387;

pub const YELLOW: u32 = 0xf9e2af;

pub const RED: u32 = 0xf38ba8;

pub const LAVENDER: u32 = 0xb4befe;

} // verus!
