//! Opcode values of the stack-machine instruction set that the decoder and
//! the heuristics refer to by name.
use vstd::prelude::*;

verus! {

pub const STOP: u8 = 0x00;

pub const EQ: u8 = 0x14;

pub const ISZERO: u8 = 0x15;

pub const MLOAD: u8 = 0x51;

pub const JUMPI: u8 = 0x57;

pub const PUSH1: u8 = 0x60;

pub const PUSH2: u8 = 0x61;

pub const PUSH3: u8 = 0x62;

pub const PUSH4: u8 = 0x63;

pub const PUSH32: u8 = 0x7f;

pub const DUP1: u8 = 0x80;

pub const LOG0: u8 = 0xa0;

pub const LOG4: u8 = 0xa4;

} // verus!
