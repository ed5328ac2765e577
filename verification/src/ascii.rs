//! Named ASCII byte constants used by the scanner, the path splitter and the
//! JSON serializer.

use vstd::prelude::*;

verus! {

pub const BS: u8 = 8;

pub const TAB: u8 = 9;

pub const LF: u8 = 10;

pub const FF: u8 = 12;

pub const CR: u8 = 13;

pub const SPACE: u8 = 32;

pub const QUOTE: u8 = 34;

pub const COMMA: u8 = 44;

pub const MINUS: u8 = 45;

pub const DOT: u8 = 46;

pub const SLASH: u8 = 47;

pub const D0: u8 = 48;

pub const D9: u8 = 57;

pub const COLON: u8 = 58;

pub const UPPER_A: u8 = 65;

pub const UPPER_Z: u8 = 90;

pub const LBRACKET: u8 = 91;

pub const BACKSLASH: u8 = 92;

pub const RBRACKET: u8 = 93;

pub const UNDERSCORE: u8 = 95;

pub const LOWER_A: u8 = 97;

pub const LOWER_B: u8 = 98;

pub const LOWER_D: u8 = 100;

pub const LOWER_E: u8 = 101;

pub const LOWER_F: u8 = 102;

pub const LOWER_L: u8 = 108;

pub const LOWER_N: u8 = 110;

pub const LOWER_R: u8 = 114;

pub const LOWER_S: u8 = 115;

pub const LOWER_T: u8 = 116;

pub const LOWER_U: u8 = 117;

pub const LOWER_V: u8 = 118;

pub const LOWER_W: u8 = 119;

pub const LOWER_Z: u8 = 122;

pub const LBRACE: u8 = 123;

pub const RBRACE: u8 = 125;

} // verus!
