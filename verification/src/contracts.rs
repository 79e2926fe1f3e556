//! Wire-contract constants shared by every part of the server.
use vstd::prelude::*;

verus! {

/// Protocol version negotiated in the hello handshake (mirrors
/// `ProtocolVersion.Current` in the envelope schema).
pub const PROTOCOL_VERSION: u16 = 1;

/// FlatBuffers file identifier stamped on every `Envelope` buffer.
pub const FILE_IDENTIFIER: &'static str = "SWO0";

} // verus!
