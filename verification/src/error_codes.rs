//! Error codes carried in `Error` messages of the native wire mode.

use vstd::prelude::*;

verus! {

pub const PROTOCOL_ERROR: u16 = 1000;

pub const INVALID_MESSAGE: u16 = 1001;

pub const CLIENT_NOT_FOUND: u16 = 1002;

pub const PERMISSION_DENIED: u16 = 1003;

pub const SERVER_ERROR: u16 = 1004;

pub const RATE_LIMITED: u16 = 1005;

} // verus!
