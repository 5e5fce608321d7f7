//! RPC command ids: the first byte of an RPC Command packet.
use vstd::prelude::*;

verus! {

pub const SEND_WIFI: u8 = 0x01;

pub const IDENTIFY: u8 = 0x02;

pub const DEVICE_INFO: u8 = 0x03;

pub const SCAN_WIFI: u8 = 0x04;

} // verus!
