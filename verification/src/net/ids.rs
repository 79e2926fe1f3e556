//! Peer ids and LiteNetLib peer numbers, both derived from a transport slot.
use vstd::prelude::*;

verus! {

/// Opaque, stable identifier for a connected peer, assigned by the host.
pub type PeerId = u32;

/// Most transport slots a host may have: slot `s` is announced to the client
/// as LiteNetLib peer id `s` and to the application as peer id `s + 1`.
pub const MAX_SLOTS: usize = 65535;

/// The application peer id of `slot`.
pub fn peer_id_of_slot(slot: usize) -> (id: PeerId)
    requires
        slot < MAX_SLOTS,
    ensures
        id == slot + 1,
{
    (slot + 1) as u32
}

/// The LiteNetLib peer id announced in the ConnectAccept of `slot`.
pub fn local_peer_id_of_slot(slot: usize) -> (n: i32)
    requires
        slot < MAX_SLOTS,
    ensures
        n == slot,
{
    slot as i32
}

/// The slot an application peer id names; id 0 names none.
pub fn slot_of_peer_id(id: PeerId) -> (r: Option<usize>)
    ensures
        match r {
            Some(s) => id >= 1 && s == id - 1,
            None => id == 0,
        },
{
    if id == 0 {
        None
    } else {
        Some((id - 1) as usize)
    }
}

} // verus!
