//! Close codes, following the RFC 6455 numbers.

use vstd::prelude::*;

verus! {

pub const NORMAL_CLOSURE: u16 = 1000;

pub const GOING_AWAY: u16 = 1001;

pub const PROTOCOL_ERROR: u16 = 1002;

pub const UNSUPPORTED_DATA: u16 = 1003;

pub const INVALID_FRAME_PAYLOAD_DATA: u16 = 1007;

pub const POLICY_VIOLATION: u16 = 1008;

pub const MESSAGE_TOO_BIG: u16 = 1009;

pub const INTERNAL_ERROR: u16 = 1011;

} // verus!
