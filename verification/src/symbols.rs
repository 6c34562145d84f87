//! The bytes that have a meaning of their own in an encoding.

use vstd::prelude::*;

verus! {

/// `i`, which opens an integer.
pub const OPEN_INTEGER: u8 = 0x69;

/// `l`, which opens a list.
pub const OPEN_LIST: u8 = 0x6c;

/// `d`, which opens a dictionary.
pub const OPEN_DICTIONARY: u8 = 0x64;

/// `e`, which closes an integer, a list or a dictionary.
pub const CLOSE: u8 = 0x65;

/// `:`, which stands between the length of a byte string and its bytes.
pub const COLON: u8 = 0x3a;

/// `-`, the sign of a negative number.
pub const MINUS: u8 = 0x2d;

/// `+`, a sign that a number may carry.
pub const PLUS: u8 = 0x2b;

/// `0`, the first of the ten digits.
pub const ZERO: u8 = 0x30;

/// `9`, the last of the ten digits.
pub const NINE: u8 = 0x39;

} // verus!
