//! `PacketProperty` discriminants (the low 5 bits of the first byte).
use vstd::prelude::*;

verus! {

pub const UNRELIABLE: u8 = 0;

pub const CHANNELED: u8 = 1;

pub const ACK: u8 = 2;

pub const PING: u8 = 3;

pub const PONG: u8 = 4;

pub const CONNECT_REQUEST: u8 = 5;

pub const CONNECT_ACCEPT: u8 = 6;

pub const DISCONNECT: u8 = 7;

pub const UNCONNECTED_MESSAGE: u8 = 8;

pub const MTU_CHECK: u8 = 9;

pub const MTU_OK: u8 = 10;

pub const BROADCAST: u8 = 11;

pub const MERGED: u8 = 12;

pub const SHUTDOWN_OK: u8 = 13;

pub const PEER_NOT_FOUND: u8 = 14;

pub const INVALID_PROTOCOL: u8 = 15;

pub const NAT_MESSAGE: u8 = 16;

pub const EMPTY: u8 = 17;

} // verus!
