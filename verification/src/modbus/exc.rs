//! Modbus exception codes (returned as `fc | 0x80`, then the code).

use vstd::prelude::*;

verus! {

pub const ILLEGAL_FUNCTION: u8 = 0x01;

pub const ILLEGAL_DATA_ADDRESS: u8 = 0x02;

pub const ILLEGAL_DATA_VALUE: u8 = 0x03;

} // verus!
