//! The ASCII characters that the fixture format is written with.

use vstd::prelude::*;

verus! {

/// `'\n'`
pub const NEWLINE: u8 = 10;

/// `' '`
pub const SPACE: u8 = 32;

/// `'('`
pub const OPEN_PAREN: u8 = 40;

/// `')'`
pub const CLOSE_PAREN: u8 = 41;

/// `','`
pub const COMMA: u8 = 44;

/// `'-'`
pub const MINUS: u8 = 45;

/// `'0'`
pub const DIGIT_0: u8 = 48;

/// `'9'`
pub const DIGIT_9: u8 = 57;

/// `';'`
pub const SEMICOLON: u8 = 59;

/// `'A'`
pub const UPPER_A: u8 = 65;

/// `'F'`
pub const UPPER_F: u8 = 70;

/// `'['`
pub const OPEN_BRACKET: u8 = 91;

/// `']'`
pub const CLOSE_BRACKET: u8 = 93;

/// `'a'`
pub const LOWER_A: u8 = 97;

/// `'f'`
pub const LOWER_F: u8 = 102;

} // verus!
