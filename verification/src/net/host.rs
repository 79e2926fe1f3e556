//! The decisions of a poll-driven LiteNetLib host: which datagrams open,
//! refresh, replace or close a peer session, what each one is answered with,
//! and the bounded per-poll maintenance that times peers out and pings them.
//!
//! The table never touches a socket. Every handler takes the datagram, its
//! source endpoint and the caller's clock, and hands back the events it
//! produced and the datagrams to send; the caller owns the I/O loop.
use std::collections::BTreeMap;
use std::collections::VecDeque;
use vstd::prelude::*;

use crate::net::ids::{local_peer_id_of_slot, peer_id_of_slot, slot_of_peer_id, PeerId, MAX_SLOTS};
use crate::net::protocol;
use crate::net::protocol::property;

verus! {

broadcast use {
    vstd::std_specs::btree::group_btree_axioms,
    vstd::laws_cmp::group_laws_cmp,
    vstd::std_specs::vecdeque::group_vec_dequeue_axioms,
};

/// Default hard ceiling on live transport peers.
pub const DEFAULT_MAX_PEERS: usize = 1024;

/// Default hard ceiling on live transport peers sharing one source IP.
pub const DEFAULT_MAX_PEERS_PER_IP: usize = 16;

/// Hard ceiling on socket datagrams consumed by one poll.
pub const MAX_POLL_PACKETS: usize = 128;

/// Hard ceiling on socket bytes consumed by one poll (four maximum UDP
/// datagrams).
pub const MAX_POLL_BYTES: usize = 262144;

/// One datagram can emit at most a disconnect plus a replacement connect.
pub const MAX_POLL_SOCKET_EVENTS: usize = 256;

/// Timeout cleanup's reserved slice of every poll's event budget.
pub const MAX_POLL_TIMEOUT_EVENTS: usize = 64;

/// Hard ceiling on live-peer slots inspected by one poll.
pub const MAX_POLL_MAINTENANCE_SCANS: usize = 512;

/// Hard ceiling on host keepalive datagrams sent by one poll.
pub const MAX_POLL_KEEPALIVE_SENDS: usize = 512;

/// Hard ceiling on the events one poll returns.
pub const MAX_POLL_EVENTS: usize = 320;

/// Idle timeout in nanoseconds: a peer silent for longer is dropped.
pub const DEFAULT_TIMEOUT_NS: u64 = 5_000_000_000;

/// How often, in nanoseconds, the host pings each peer to measure RTT.
pub const PING_INTERVAL_NS: u64 = 1_000_000_000;

/// Why a peer left.
#[derive(Debug, Clone, Copy, PartialEq, Eq, Structural)]
pub enum DisconnectReason {
    /// The peer sent a Disconnect packet, or replaced its session.
    Remote,
    /// No packets were received within the idle timeout.
    Timeout,
    /// The host is shutting the connection down locally.
    Shutdown,
}

/// Something that happened to the host during a poll.
#[derive(Debug, Clone, PartialEq, Eq)]
pub enum Event {
    /// A peer completed the handshake and is now connected.
    Connected(PeerId),
    /// A peer delivered an application datagram (payload without the
    /// LiteNetLib header byte).
    Data(PeerId, Vec<u8>),
    /// A peer was disconnected.
    Disconnected(PeerId, DisconnectReason),
}

/// The mathematical content of an [`Event`].
pub enum EventView {
    Connected(PeerId),
    Data(PeerId, Seq<u8>),
    Disconnected(PeerId, DisconnectReason),
}

impl View for Event {
    type V = EventView;

    open spec fn view(&self) -> EventView {
        match self {
            Event::Connected(id) => EventView::Connected(*id),
            Event::Data(id, bytes) => EventView::Data(*id, bytes@),
            Event::Disconnected(id, why) => EventView::Disconnected(*id, *why),
        }
    }
}

/// The views of a sequence of events.
pub open spec fn event_views(s: Seq<Event>) -> Seq<EventView> {
    s.map_values(|e: Event| e@)
}

/// A UDP source or destination: the address family tag (4 or 6), the address
/// bits, and the port.
#[derive(Debug, Clone, Copy, PartialEq, Eq, Hash, Structural)]
pub struct Endpoint {
    pub family: u8,
    pub ip: u128,
    pub port: u16,
}

/// The key under which a peer at `e` is filed.
pub open spec fn endpoint_key(e: Endpoint) -> (u8, u128, u16) {
    (e.family, e.ip, e.port)
}

/// The source-IP key of `e`, shared by every port of one address.
pub open spec fn ip_key(e: Endpoint) -> (u8, u128) {
    (e.family, e.ip)
}

fn key_of(e: Endpoint) -> (k: (u8, u128, u16))
    ensures
        k == endpoint_key(e),
{
    (e.family, e.ip, e.port)
}

fn ip_of(e: Endpoint) -> (k: (u8, u128))
    ensures
        k == ip_key(e),
{
    (e.family, e.ip)
}

/// A datagram the caller must send.
#[derive(Debug, Clone, PartialEq, Eq)]
pub struct Datagram {
    pub to: Endpoint,
    pub bytes: Vec<u8>,
}

/// The mathematical content of a [`Datagram`].
pub struct DatagramView {
    pub to: Endpoint,
    pub bytes: Seq<u8>,
}

impl View for Datagram {
    type V = DatagramView;

    open spec fn view(&self) -> DatagramView {
        DatagramView { to: self.to, bytes: self.bytes@ }
    }
}

/// The views of a sequence of datagrams.
pub open spec fn datagram_views(s: Seq<Datagram>) -> Seq<DatagramView> {
    s.map_values(|d: Datagram| d@)
}

/// One live session. Times are nanoseconds on the caller's monotonic clock.
#[derive(Debug, Clone, Copy, PartialEq, Eq)]
pub struct Peer {
    pub id: PeerId,
    pub slot: usize,
    pub addr: Endpoint,
    pub connect_time: i64,
    pub connection_number: u8,
    pub local_peer_id: i32,
    pub last_recv: u64,
    pub last_ping_sent: u64,
    pub ping_seq: u16,
    pub ping_sent_at: Option<u64>,
    pub rtt: Option<u64>,
}

/// The host's peer bookkeeping: live sessions by endpoint, the slot each one
/// occupies, retired slots in the order they were freed, and one live-peer
/// counter per source IP.
pub struct PeerTable {
    peers: BTreeMap<(u8, u128, u16), Peer>,
    peer_slots: Vec<Option<Endpoint>>,
    // Retired slots join the back of this queue. Only the prefix counted by
    // `available_free_peer_slots` existed when the current poll began, so slot
    // reuse can never alias an event returned by that poll.
    free_peer_slots: VecDeque<usize>,
    available_free_peer_slots: usize,
    peers_per_ip: BTreeMap<(u8, u128), usize>,
    maintenance_cursor: usize,
    connect_key: String,
    timeout: u64,
    max_peers: usize,
    max_peers_per_ip: usize,
}

/// The mathematical content of a [`PeerTable`].
pub struct TableModel {
    pub peers: Map<(u8, u128, u16), Peer>,
    pub slots: Seq<Option<Endpoint>>,
    pub free: Seq<usize>,
    pub available: nat,
    pub ip_counts: Map<(u8, u128), usize>,
    pub cursor: nat,
    pub connect_key: Seq<char>,
    pub timeout: u64,
    pub max_peers: usize,
    pub max_peers_per_ip: usize,
}

impl View for PeerTable {
    type V = TableModel;

    closed spec fn view(&self) -> TableModel {
        TableModel {
            peers: self.peers@,
            slots: self.peer_slots@,
            free: self.free_peer_slots@,
            available: self.available_free_peer_slots as nat,
            ip_counts: self.peers_per_ip@,
            cursor: self.maintenance_cursor as nat,
            connect_key: self.connect_key@,
            timeout: self.timeout,
            max_peers: self.max_peers,
            max_peers_per_ip: self.max_peers_per_ip,
        }
    }
}

/// Whether a slot holds a peer from source IP `ip`.
pub open spec fn holds_ip(slot: Option<Endpoint>, ip: (u8, u128)) -> bool {
    slot matches Some(e) && ip_key(e) == ip
}

/// How many slots hold a live peer from source IP `ip`.
pub open spec fn ip_live(slots: Seq<Option<Endpoint>>, ip: (u8, u128)) -> nat
    decreases slots.len(),
{
    if slots.len() == 0 {
        0
    } else {
        ip_live(slots.drop_last(), ip) + if holds_ip(slots.last(), ip) {
            1nat
        } else {
            0nat
        }
    }
}

/// How many slots hold a live peer.
pub open spec fn live(slots: Seq<Option<Endpoint>>) -> nat
    decreases slots.len(),
{
    if slots.len() == 0 {
        0
    } else {
        live(slots.drop_last()) + if slots.last() is Some {
            1nat
        } else {
            0nat
        }
    }
}

/// The peer filed under `k` sits in the slot it names, under its own
/// endpoint, with the ids that slot determines.
pub open spec fn peer_fits(p: Peer, k: (u8, u128, u16), slots: Seq<Option<Endpoint>>) -> bool {
    &&& p.slot < slots.len()
    &&& slots[p.slot as int] == Some(p.addr)
    &&& endpoint_key(p.addr) == k
    &&& p.id == p.slot + 1
    &&& p.local_peer_id == p.slot
}

impl TableModel {
    /// The table's consistency: limits in range; live slots and filed peers
    /// in one-to-one correspondence; the free queue lists each empty slot
    /// exactly once; each per-IP counter equals its live peers, and exists
    /// exactly while that number is nonzero; no IP exceeds its ceiling.
    pub open spec fn wf(self) -> bool {
        &&& 1 <= self.max_peers <= MAX_SLOTS
        &&& 1 <= self.max_peers_per_ip <= self.max_peers
        &&& self.slots.len() <= self.max_peers
        &&& self.cursor <= self.slots.len()
        &&& self.available <= self.free.len()
        &&& forall|s: int|
            #![trigger self.slots[s]]
            0 <= s < self.slots.len() && self.slots[s] is Some ==> {
                &&& self.peers.contains_key(endpoint_key(self.slots[s]->0))
                &&& self.peers[endpoint_key(self.slots[s]->0)].slot == s
            }
        &&& forall|k: (u8, u128, u16)| #[trigger]
            self.peers.contains_key(k) ==> peer_fits(self.peers[k], k, self.slots)
        &&& forall|i: int|
            #![trigger self.free[i]]
            0 <= i < self.free.len() ==> self.free[i] < self.slots.len() && self.slots[self.free[i]
                as int] is None
        &&& self.free.no_duplicates()
        &&& forall|s: int|
            #![trigger self.slots[s]]
            0 <= s < self.slots.len() && self.slots[s] is None ==> self.free.contains(s as usize)
        &&& forall|ip: (u8, u128)| #[trigger]
            self.ip_counts.contains_key(ip) <==> ip_live(self.slots, ip) > 0
        &&& forall|ip: (u8, u128)| #[trigger]
            self.ip_counts.contains_key(ip) ==> self.ip_counts[ip] == ip_live(self.slots, ip)
        &&& forall|ip: (u8, u128)| #[trigger] ip_live(self.slots, ip) <= self.max_peers_per_ip
        &&& self.peers.dom().finite()
        &&& self.peers.len() == live(self.slots)
    }

    /// The number of live peers from source IP `ip`.
    pub open spec fn count_for_ip(self, ip: (u8, u128)) -> nat {
        if self.ip_counts.contains_key(ip) {
            self.ip_counts[ip] as nat
        } else {
            0
        }
    }

    /// The counters after one peer from `ip` left.
    pub open spec fn ip_counts_without(self, ip: (u8, u128)) -> Map<(u8, u128), usize> {
        if self.ip_counts.contains_key(ip) && self.ip_counts[ip] > 1 {
            self.ip_counts.insert(ip, (self.ip_counts[ip] - 1) as usize)
        } else {
            self.ip_counts.remove(ip)
        }
    }

    /// The counters after one peer from `ip` arrived.
    pub open spec fn ip_counts_with(self, ip: (u8, u128)) -> Map<(u8, u128), usize> {
        self.ip_counts.insert(ip, (self.count_for_ip(ip) + 1) as usize)
    }

    /// The table after the peer filed under `k` left: its slot empties and
    /// joins the back of the free queue, and its IP counter drops by one.
    pub open spec fn without_peer(self, k: (u8, u128, u16)) -> TableModel {
        let p = self.peers[k];
        TableModel {
            peers: self.peers.remove(k),
            slots: self.slots.update(p.slot as int, None),
            free: self.free.push(p.slot),
            ip_counts: self.ip_counts_without(ip_key(p.addr)),
            ..self
        }
    }

    /// The slot the next admission takes: a fresh one while the slot vector
    /// is below the ceiling, else the oldest slot retired before this poll.
    pub open spec fn next_slot(self) -> Option<usize> {
        if self.slots.len() < self.max_peers {
            Some(self.slots.len() as usize)
        } else if self.available > 0 {
            Some(self.free[0])
        } else {
            None
        }
    }

    /// The table after `p` was admitted into the slot `next_slot` names.
    pub open spec fn with_peer(self, p: Peer) -> TableModel {
        if self.slots.len() < self.max_peers {
            TableModel {
                peers: self.peers.insert(endpoint_key(p.addr), p),
                slots: self.slots.push(Some(p.addr)),
                ip_counts: self.ip_counts_with(ip_key(p.addr)),
                ..self
            }
        } else {
            TableModel {
                peers: self.peers.insert(endpoint_key(p.addr), p),
                slots: self.slots.update(p.slot as int, Some(p.addr)),
                free: self.free.drop_first(),
                available: (self.available - 1) as nat,
                ip_counts: self.ip_counts_with(ip_key(p.addr)),
                ..self
            }
        }
    }

    /// The table with the peer filed under `k` replaced by `p`.
    pub open spec fn updated(self, k: (u8, u128, u16), p: Peer) -> TableModel {
        TableModel { peers: self.peers.insert(k, p), ..self }
    }
}

/// Each slot counts toward exactly the IP of the peer it holds.
pub proof fn lemma_ip_live_update(s: Seq<Option<Endpoint>>, i: int, v: Option<Endpoint>, ip: (
    u8,
    u128,
))
    requires
        0 <= i < s.len(),
    ensures
        ip_live(s.update(i, v), ip) == ip_live(s, ip) - (if holds_ip(s[i], ip) {
            1int
        } else {
            0int
        }) + (if holds_ip(v, ip) {
            1int
        } else {
            0int
        }),
    decreases s.len(),
{
    if i == s.len() - 1 {
        assert(s.update(i, v).drop_last() =~= s.drop_last());
    } else {
        lemma_ip_live_update(s.drop_last(), i, v, ip);
        assert(s.update(i, v).drop_last() =~= s.drop_last().update(i, v));
    }
}

/// Each slot counts toward the live total exactly when it holds a peer.
pub proof fn lemma_live_update(s: Seq<Option<Endpoint>>, i: int, v: Option<Endpoint>)
    requires
        0 <= i < s.len(),
    ensures
        live(s.update(i, v)) == live(s) - (if s[i] is Some {
            1int
        } else {
            0int
        }) + (if v is Some {
            1int
        } else {
            0int
        }),
    decreases s.len(),
{
    if i == s.len() - 1 {
        assert(s.update(i, v).drop_last() =~= s.drop_last());
    } else {
        lemma_live_update(s.drop_last(), i, v);
        assert(s.update(i, v).drop_last() =~= s.drop_last().update(i, v));
    }
}

/// Appending a slot adds its peer to the counts.
pub proof fn lemma_counts_push(s: Seq<Option<Endpoint>>, v: Option<Endpoint>)
    ensures
        live(s.push(v)) == live(s) + (if v is Some {
            1int
        } else {
            0int
        }),
        forall|ip: (u8, u128)|
            #[trigger] ip_live(s.push(v), ip) == ip_live(s, ip) + (if holds_ip(v, ip) {
                1int
            } else {
                0int
            }),
{
    assert(s.push(v).drop_last() =~= s);
}

/// A slot that holds a peer from `ip` makes `ip` live.
pub proof fn lemma_ip_live_positive(s: Seq<Option<Endpoint>>, i: int, ip: (u8, u128))
    requires
        0 <= i < s.len(),
        holds_ip(s[i], ip),
    ensures
        ip_live(s, ip) > 0,
    decreases s.len(),
{
    if i < s.len() - 1 {
        lemma_ip_live_positive(s.drop_last(), i, ip);
    }
}


/// Ports, addresses and tuples of them are ordered the way `BTreeMap` needs.
proof fn lemma_keys_ordered()
    ensures
        vstd::laws_cmp::obeys_cmp::<(u8, u128, u16)>(),
        vstd::laws_cmp::obeys_cmp::<(u8, u128)>(),
        vstd::std_specs::btree::key_obeys_cmp_spec::<(u8, u128, u16)>(),
        vstd::std_specs::btree::key_obeys_cmp_spec::<(u8, u128)>(),
{
    assert(vstd::laws_cmp::obeys_cmp::<u8>());
    assert(vstd::laws_cmp::obeys_cmp::<u16>());
    assert(vstd::laws_cmp::obeys_cmp::<u128>());
    assert(vstd::laws_cmp::obeys_cmp::<(u8, u128, u16)>());
    assert(vstd::laws_cmp::obeys_cmp::<(u8, u128)>());
}

/// The session a fresh admission files: ids from its slot, times from `now`,
/// no ping outstanding and no RTT yet.
pub open spec fn fresh_peer(slot: usize, addr: Endpoint, connect_time: i64, connection_number: u8, now: u64) -> Peer {
    Peer {
        id: (slot + 1) as u32,
        slot,
        addr,
        connect_time,
        connection_number,
        local_peer_id: slot as i32,
        last_recv: now,
        last_ping_sent: now,
        ping_seq: 0,
        ping_sent_at: None,
        rtt: None,
    }
}

/// Why a table could not be made.
#[derive(Debug, Clone, Copy, PartialEq, Eq, Structural)]
pub enum LimitsError {
    /// The global ceiling is zero or above 65535, or the per-IP ceiling is
    /// zero or above the global one.
    InvalidLimits,
}

/// Whether a pair of ceilings is acceptable.
pub open spec fn limits_valid(max_peers: usize, max_peers_per_ip: usize) -> bool {
    1 <= max_peers <= MAX_SLOTS && 1 <= max_peers_per_ip <= max_peers
}

impl TableModel {
    /// The endpoint of the live peer `id` names.
    pub open spec fn addr_of(self, id: PeerId) -> Option<Endpoint> {
        if 1 <= id && id - 1 < self.slots.len() {
            self.slots[id - 1]
        } else {
            None
        }
    }
}

impl PeerTable {
    /// An empty table that accepts peers presenting `connect_key`, with hard
    /// global and per-source-IP live-peer ceilings and the default idle
    /// timeout.
    pub fn new(connect_key: &str, max_peers: usize, max_peers_per_ip: usize) -> (r: Result<
        PeerTable,
        LimitsError,
    >)
        ensures
            match r {
                Ok(t) => {
                    &&& limits_valid(max_peers, max_peers_per_ip)
                    &&& t@.wf()
                    &&& t@.peers.is_empty()
                    &&& t@.slots.len() == 0
                    &&& t@.free.len() == 0
                    &&& t@.available == 0
                    &&& t@.ip_counts.is_empty()
                    &&& t@.cursor == 0
                    &&& t@.connect_key == connect_key@
                    &&& t@.timeout == DEFAULT_TIMEOUT_NS
                    &&& t@.max_peers == max_peers
                    &&& t@.max_peers_per_ip == max_peers_per_ip
                },
                Err(e) => e == LimitsError::InvalidLimits && !limits_valid(max_peers, max_peers_per_ip),
            },
    {
        if max_peers == 0 || max_peers > MAX_SLOTS || max_peers_per_ip == 0 || max_peers_per_ip
            > max_peers {
            return Err(LimitsError::InvalidLimits);
        }
        let t = PeerTable {
            peers: BTreeMap::new(),
            peer_slots: Vec::new(),
            free_peer_slots: VecDeque::new(),
            available_free_peer_slots: 0,
            peers_per_ip: BTreeMap::new(),
            maintenance_cursor: 0,
            connect_key: connect_key.to_owned(),
            timeout: DEFAULT_TIMEOUT_NS,
            max_peers,
            max_peers_per_ip,
        };
        proof {
            assert(t@.peers.dom() =~= Set::empty());
            assert forall|ip: (u8, u128)| #[trigger] ip_live(t@.slots, ip) == 0 by {}
        }
        Ok(t)
    }

    /// The table's consistency.
    pub open spec fn wf(&self) -> bool {
        self@.wf()
    }

    /// Number of currently connected peers.
    pub fn peer_count(&self) -> (r: usize)
        requires
            self.wf(),
        ensures
            r == self@.peers.len(),
            r == live(self@.slots),
    {
        proof {
            lemma_keys_ordered();
        }
        self.peers.len()
    }

    /// Number of currently connected peers from source IP `ip`.
    pub fn peer_count_for_ip(&self, ip: (u8, u128)) -> (r: usize)
        requires
            self.wf(),
        ensures
            r == self@.count_for_ip(ip),
            r == ip_live(self@.slots, ip),
    {
        proof {
            lemma_keys_ordered();
        }
        proof {
            assert(self@.ip_counts.contains_key(ip) <==> ip_live(self@.slots, ip) > 0);
        }
        match self.peers_per_ip.get(&ip) {
            Some(c) => *c,
            None => 0,
        }
    }

    /// The remote endpoint of live peer `peer`.
    pub fn peer_addr(&self, peer: PeerId) -> (r: Option<Endpoint>)
        requires
            self.wf(),
        ensures
            r == self@.addr_of(peer),
            r matches Some(a) ==> self@.peers.contains_key(endpoint_key(a)) && self@.peers[endpoint_key(a)].id == peer,
    {
        proof {
            lemma_keys_ordered();
        }
        let slot = match slot_of_peer_id(peer) {
            Some(s) => s,
            None => return None,
        };
        if slot >= self.peer_slots.len() {
            return None;
        }
        let addr = match self.peer_slots[slot] {
            Some(a) => a,
            None => return None,
        };
        let k = key_of(addr);
        match self.peers.get(&k) {
            Some(connected) => {
                if connected.id == peer {
                    Some(addr)
                } else {
                    None
                }
            },
            None => None,
        }
    }

    /// Last measured round-trip time to `peer`, in nanoseconds, once a Pong
    /// has come back.
    pub fn rtt(&self, peer: PeerId) -> (r: Option<u64>)
        requires
            self.wf(),
        ensures
            r == match self@.addr_of(peer) {
                Some(a) => self@.peers[endpoint_key(a)].rtt,
                None => None,
            },
    {
        proof {
            lemma_keys_ordered();
        }
        let addr = match self.peer_addr(peer) {
            Some(a) => a,
            None => return None,
        };
        match self.peers.get(&key_of(addr)) {
            Some(p) => p.rtt,
            None => None,
        }
    }

    /// Remove the peer at `addr`, retiring its slot to the back of the free
    /// queue and dropping its IP counter by one.
    fn remove_peer_at(&mut self, addr: Endpoint) -> (r: Option<Peer>)
        requires
            old(self).wf(),
        ensures
            final(self).wf(),
            match r {
                Some(p) => {
                    &&& old(self)@.peers.contains_key(endpoint_key(addr))
                    &&& p == old(self)@.peers[endpoint_key(addr)]
                    &&& final(self)@ == old(self)@.without_peer(endpoint_key(addr))
                    &&& forall|x: (u8, u128)|
                        #[trigger] ip_live(final(self)@.slots, x) == ip_live(old(self)@.slots, x) - (
                        if x == ip_key(addr) {
                            1int
                        } else {
                            0int
                        })
                },
                None => !old(self)@.peers.contains_key(endpoint_key(addr)) && final(self)@ == old(
                    self,
                )@,
            },
    {
        proof {
            lemma_keys_ordered();
        }
        let ghost t = self@;
        let k = key_of(addr);
        let slot = match self.peers.get(&k) {
            Some(p) => p.slot,
            None => return None,
        };
        let ip = ip_of(addr);
        proof {
            assert(peer_fits(t.peers[k], k, t.slots));
            assert(t.peers[k].addr == addr);
            lemma_ip_live_positive(t.slots, slot as int, ip);
            assert(t.ip_counts.contains_key(ip));
        }
        let count = match self.peers_per_ip.get(&ip) {
            Some(c) => *c,
            None => return None,
        };
        if count > 1 {
            self.peers_per_ip.insert(ip, count - 1);
        } else {
            self.peers_per_ip.remove(&ip);
        }
        let peer = match self.peers.remove(&k) {
            Some(p) => p,
            None => return None,
        };
        self.peer_slots.set(slot, None);
        self.free_peer_slots.push_back(slot);
        proof {
            let n = self@;
            let expected = t.without_peer(k);
            assert(n.ip_counts =~= expected.ip_counts);
            assert(n.slots =~= expected.slots);
            assert(n.free =~= expected.free);
            assert(n.peers =~= expected.peers);
            assert(n == expected);
            lemma_live_update(t.slots, slot as int, None);
            assert forall|x: (u8, u128)| true implies #[trigger] ip_live(n.slots, x) == ip_live(
                t.slots,
                x,
            ) - (if x == ip {
                1int
            } else {
                0int
            }) by {
                lemma_ip_live_update(t.slots, slot as int, None, x);
            }
            assert forall|s: int|
                #![trigger n.slots[s]]
                0 <= s < n.slots.len() && n.slots[s] is Some implies {
                &&& n.peers.contains_key(endpoint_key(n.slots[s]->0))
                &&& n.peers[endpoint_key(n.slots[s]->0)].slot == s
            } by {
                assert(t.slots[s] is Some);
                assert(s != slot);
            }
            assert forall|k2: (u8, u128, u16)| #[trigger]
                n.peers.contains_key(k2) implies peer_fits(n.peers[k2], k2, n.slots) by {
                assert(t.peers.contains_key(k2));
                assert(peer_fits(t.peers[k2], k2, t.slots));
                if t.peers[k2].slot == slot {
                    assert(t.slots[slot as int] == Some(t.peers[k2].addr));
                }
            }
            assert forall|i: int|
                #![trigger n.free[i]]
                0 <= i < n.free.len() implies n.free[i] < n.slots.len() && n.slots[n.free[i] as int] is None by {
                if i < t.free.len() {
                    assert(t.free[i] == n.free[i]);
                }
            }
            assert(!t.free.contains(slot)) by {
                if t.free.contains(slot) {
                    let i = choose|i: int| 0 <= i < t.free.len() && t.free[i] == slot;
                    assert(t.slots[t.free[i] as int] is None);
                }
            }
            assert(n.free.no_duplicates()) by {
                assert forall|i: int, j: int|
                    0 <= i < n.free.len() && 0 <= j < n.free.len() && i != j implies n.free[i]
                    != n.free[j] by {
                    if i < t.free.len() && j < t.free.len() {
                    } else if i < t.free.len() {
                        assert(t.free.contains(t.free[i]));
                    } else {
                        assert(t.free.contains(t.free[j]));
                    }
                }
            }
            assert forall|s: int|
                #![trigger n.slots[s]]
                0 <= s < n.slots.len() && n.slots[s] is None implies n.free.contains(s as usize) by {
                if s == slot {
                    assert(n.free[n.free.len() - 1] == slot);
                } else {
                    assert(t.slots[s] is None);
                    let i = choose|i: int| 0 <= i < t.free.len() && t.free[i] == s as usize;
                    assert(n.free[i] == s as usize);
                }
            }
            assert forall|x: (u8, u128)| #[trigger]
                n.ip_counts.contains_key(x) <==> ip_live(n.slots, x) > 0 by {
                assert(ip_live(n.slots, x) == ip_live(t.slots, x) - (if x == ip {
                    1int
                } else {
                    0int
                }));
            }
            assert forall|x: (u8, u128)| #[trigger]
                n.ip_counts.contains_key(x) implies n.ip_counts[x] == ip_live(n.slots, x) by {
                assert(ip_live(n.slots, x) == ip_live(t.slots, x) - (if x == ip {
                    1int
                } else {
                    0int
                }));
            }
            assert forall|x: (u8, u128)| #[trigger] ip_live(n.slots, x) <= n.max_peers_per_ip by {
                assert(ip_live(t.slots, x) <= t.max_peers_per_ip);
            }
        }
        Some(peer)
    }
}


impl PeerTable {
    /// File a new session for `addr` in the slot `next_slot` names, and
    /// count it toward its source IP. `None` when no slot is available.
    fn file_new_peer(&mut self, addr: Endpoint, connect_time: i64, connection_number: u8, now: u64) -> (r:
        Option<usize>)
        requires
            old(self).wf(),
            !old(self)@.peers.contains_key(endpoint_key(addr)),
            old(self)@.count_for_ip(ip_key(addr)) < old(self)@.max_peers_per_ip,
        ensures
            final(self).wf(),
            r == old(self)@.next_slot(),
            match r {
                Some(s) => final(self)@ == old(self)@.with_peer(
                    fresh_peer(s, addr, connect_time, connection_number, now),
                ),
                None => final(self)@ == old(self)@,
            },
    {
        proof {
            lemma_keys_ordered();
        }
        let ghost t = self@;
        let ip = ip_of(addr);
        let slot: usize;
        if self.peer_slots.len() < self.max_peers {
            slot = self.peer_slots.len();
            self.peer_slots.push(Some(addr));
        } else if self.available_free_peer_slots > 0 {
            self.available_free_peer_slots = self.available_free_peer_slots - 1;
            slot = match self.free_peer_slots.pop_front() {
                Some(s) => s,
                None => return None,
            };
            proof {
                assert(t.free[0] == slot);
                assert(t.slots[slot as int] is None);
            }
            self.peer_slots.set(slot, Some(addr));
        } else {
            return None;
        }
        let id = peer_id_of_slot(slot);
        let local_peer_id = local_peer_id_of_slot(slot);
        proof {
            assert(t.count_for_ip(ip) == ip_live(t.slots, ip)) by {
                assert(t.ip_counts.contains_key(ip) <==> ip_live(t.slots, ip) > 0);
            }
        }
        let count = match self.peers_per_ip.get(&ip) {
            Some(c) => *c,
            None => 0,
        };
        self.peers_per_ip.insert(ip, count + 1);
        let peer = Peer {
            id,
            slot,
            addr,
            connect_time,
            connection_number,
            local_peer_id,
            last_recv: now,
            last_ping_sent: now,
            ping_seq: 0,
            ping_sent_at: None,
            rtt: None,
        };
        let k = key_of(addr);
        self.peers.insert(k, peer);
        proof {
            let n = self@;
            let p = fresh_peer(slot, addr, connect_time, connection_number, now);
            assert(peer == p);
            let expected = t.with_peer(p);
            assert(n.ip_counts =~= expected.ip_counts);
            assert(n.slots =~= expected.slots);
            assert(n.free =~= expected.free);
            assert(n.peers =~= expected.peers);
            assert(n == expected);
            if slot == t.slots.len() {
                lemma_counts_push(t.slots, Some(addr));
            } else {
                lemma_live_update(t.slots, slot as int, Some(addr));
                assert forall|x: (u8, u128)| true implies #[trigger] ip_live(n.slots, x)
                    == ip_live(t.slots, x) + (if x == ip {
                    1int
                } else {
                    0int
                }) by {
                    lemma_ip_live_update(t.slots, slot as int, Some(addr), x);
                }
            }
            assert forall|x: (u8, u128)| true implies #[trigger] ip_live(n.slots, x) == ip_live(
                t.slots,
                x,
            ) + (if x == ip {
                1int
            } else {
                0int
            }) by {
                if slot == t.slots.len() {
                    assert(holds_ip(Some(addr), x) == (x == ip));
                }
            }
            assert forall|s: int|
                #![trigger n.slots[s]]
                0 <= s < n.slots.len() && n.slots[s] is Some implies {
                &&& n.peers.contains_key(endpoint_key(n.slots[s]->0))
                &&& n.peers[endpoint_key(n.slots[s]->0)].slot == s
            } by {
                if s != slot {
                    assert(t.slots[s] is Some);
                    assert(t.peers.contains_key(endpoint_key(t.slots[s]->0)));
                    if endpoint_key(t.slots[s]->0) == k {
                        assert(false);
                    }
                }
            }
            assert forall|k2: (u8, u128, u16)| #[trigger]
                n.peers.contains_key(k2) implies peer_fits(n.peers[k2], k2, n.slots) by {
                if k2 != k {
                    assert(t.peers.contains_key(k2));
                    assert(peer_fits(t.peers[k2], k2, t.slots));
                    if t.peers[k2].slot == slot {
                        assert(t.slots[slot as int] == Some(t.peers[k2].addr));
                        assert(false);
                    }
                }
            }
            if slot < t.slots.len() {
                assert(t.free[0] == slot);
                assert forall|i: int|
                    #![trigger n.free[i]]
                    0 <= i < n.free.len() implies n.free[i] < n.slots.len() && n.slots[n.free[i] as int] is None by {
                    assert(n.free[i] == t.free[i + 1]);
                    assert(t.free[i + 1] != t.free[0]);
                }
                assert forall|s: int|
                    #![trigger n.slots[s]]
                    0 <= s < n.slots.len() && n.slots[s] is None implies n.free.contains(s as usize) by {
                    assert(t.slots[s] is None);
                    let i = choose|i: int| 0 <= i < t.free.len() && t.free[i] == s as usize;
                    assert(i != 0);
                    assert(n.free[i - 1] == s as usize);
                }
            } else {
                assert forall|i: int|
                    #![trigger n.free[i]]
                    0 <= i < n.free.len() implies n.free[i] < n.slots.len() && n.slots[n.free[i] as int] is None by {
                    assert(t.free[i] < t.slots.len());
                }
                assert forall|s: int|
                    #![trigger n.slots[s]]
                    0 <= s < n.slots.len() && n.slots[s] is None implies n.free.contains(s as usize) by {
                    assert(t.slots[s] is None);
                }
            }
            assert forall|x: (u8, u128)| #[trigger]
                n.ip_counts.contains_key(x) <==> ip_live(n.slots, x) > 0 by {
                assert(ip_live(n.slots, x) == ip_live(t.slots, x) + (if x == ip {
                    1int
                } else {
                    0int
                }));
                assert(t.ip_counts.contains_key(x) <==> ip_live(t.slots, x) > 0);
            }
            assert forall|x: (u8, u128)| #[trigger]
                n.ip_counts.contains_key(x) implies n.ip_counts[x] == ip_live(n.slots, x) by {
                assert(ip_live(n.slots, x) == ip_live(t.slots, x) + (if x == ip {
                    1int
                } else {
                    0int
                }));
                assert(t.ip_counts.contains_key(x) <==> ip_live(t.slots, x) > 0);
            }
            assert forall|x: (u8, u128)| #[trigger] ip_live(n.slots, x) <= n.max_peers_per_ip by {
                assert(ip_live(n.slots, x) == ip_live(t.slots, x) + (if x == ip {
                    1int
                } else {
                    0int
                }));
                assert(ip_live(t.slots, x) <= t.max_peers_per_ip);
            }
        }
        Some(slot)
    }
}


/// A ConnectAccept echoing `connect_time` and `connection_number`, naming
/// the client's LiteNetLib peer id, not flagged as a reused session.
pub open spec fn accept_bytes(connect_time: i64, connection_number: u8, local_peer_id: i32) -> Seq<u8> {
    seq![property::CONNECT_ACCEPT] + protocol::le_i64(connect_time) + seq![connection_number, 0u8]
        + protocol::le_i32(local_peer_id)
}

/// A single-byte control packet of `prop`.
pub open spec fn control_bytes(prop: u8) -> Seq<u8> {
    seq![prop & 0x1Fu8]
}

/// What the table, the events and the sends become on one step: the new
/// table, the events appended, the datagrams appended.
pub type Step = (TableModel, Seq<EventView>, Seq<DatagramView>);

/// A step that changes nothing.
pub open spec fn no_step(t: TableModel) -> Step {
    (t, Seq::empty(), Seq::empty())
}

/// Admitting a requested session at `addr` into the next slot: the
/// ConnectAccept and the `Connected` event follow `before`, or nothing when no
/// slot is available.
pub open spec fn admission(t: TableModel, addr: Endpoint, req: protocol::ConnectRequestView, now: u64, before: Seq<EventView>) -> Step {
    match t.next_slot() {
        None => (t, before, Seq::empty()),
        Some(s) => (
            t.with_peer(fresh_peer(s, addr, req.connect_time, req.connection_number, now)),
            before.push(EventView::Connected((s + 1) as u32)),
            seq![DatagramView { to: addr, bytes: accept_bytes(req.connect_time, req.connection_number, s as i32) }],
        ),
    }
}

/// The answer to a ConnectRequest datagram from `addr`.
///
/// Unparseable requests and wrong connect keys are dropped silently; a wrong
/// protocol id is answered with `InvalidProtocol`. A request from an endpoint
/// with a live session is ordered by its signed connect time against that
/// session's: older is dropped, equal resends the original accept, newer
/// replaces the session (a `Remote` disconnect) and then takes the next slot
/// without the capacity checks. A request from a new endpoint is dropped at
/// the global or per-IP ceiling, else takes the next slot.
pub open spec fn on_connect_request(t: TableModel, data: Seq<u8>, addr: Endpoint, now: u64) -> Step {
    match protocol::parse_connect_request_spec(data) {
        None => no_step(t),
        Some(req) => {
            let k = endpoint_key(addr);
            if req.protocol_id != protocol::PROTOCOL_ID {
                (t, Seq::empty(), seq![DatagramView { to: addr, bytes: control_bytes(property::INVALID_PROTOCOL) }])
            } else if protocol::read_litenet_string_spec(req.connect_data) != Some(t.connect_key) {
                no_step(t)
            } else if t.peers.contains_key(k) {
                let e = t.peers[k];
                if req.connect_time < e.connect_time {
                    no_step(t)
                } else if req.connect_time == e.connect_time {
                    (t, Seq::empty(), seq![DatagramView { to: addr, bytes: accept_bytes(e.connect_time, e.connection_number, e.local_peer_id) }])
                } else {
                    admission(t.without_peer(k), addr, req, now, seq![EventView::Disconnected(e.id, DisconnectReason::Remote)])
                }
            } else if t.peers.len() >= t.max_peers || t.count_for_ip(ip_key(addr)) >= t.max_peers_per_ip {
                no_step(t)
            } else {
                admission(t, addr, req, now, Seq::empty())
            }
        },
    }
}

/// The table, events and sends after a step from `(t, events, sends)`.
pub open spec fn stepped(t: TableModel, events: Seq<Event>, sends: Seq<Datagram>, step: Step, t2: TableModel, events2: Seq<Event>, sends2: Seq<Datagram>) -> bool {
    &&& t2 == step.0
    &&& event_views(events2) == event_views(events) + step.1
    &&& datagram_views(sends2) == datagram_views(sends) + step.2
}

proof fn lemma_push_event(events: Seq<Event>, e: Event)
    ensures
        event_views(events.push(e)) == event_views(events).push(e@),
{
    assert(event_views(events.push(e)) =~= event_views(events).push(e@));
}

proof fn lemma_push_datagram(sends: Seq<Datagram>, d: Datagram)
    ensures
        datagram_views(sends.push(d)) == datagram_views(sends).push(d@),
{
    assert(datagram_views(sends.push(d)) =~= datagram_views(sends).push(d@));
}

fn send_to(sends: &mut Vec<Datagram>, to: Endpoint, bytes: &[u8])
    ensures
        datagram_views(final(sends)@) == datagram_views(old(sends)@).push(DatagramView { to, bytes: bytes@ }),
{
    let d = Datagram { to, bytes: vstd::slice::slice_to_vec(bytes) };
    proof {
        lemma_push_datagram(old(sends)@, d);
    }
    sends.push(d);
}

fn emit(events: &mut Vec<Event>, e: Event)
    ensures
        event_views(final(events)@) == event_views(old(events)@).push(e@),
{
    proof {
        lemma_push_event(old(events)@, e);
    }
    events.push(e);
}

impl PeerTable {
    /// Take the next slot for `addr`, send the ConnectAccept and report
    /// `Connected`.
    fn admit_requested(&mut self, addr: Endpoint, connect_time: i64, connection_number: u8, now: u64, events: &mut Vec<Event>, sends: &mut Vec<Datagram>)
        requires
            old(self).wf(),
            !old(self)@.peers.contains_key(endpoint_key(addr)),
            old(self)@.count_for_ip(ip_key(addr)) < old(self)@.max_peers_per_ip,
        ensures
            final(self).wf(),
            match old(self)@.next_slot() {
                None => final(self)@ == old(self)@ && final(events)@ == old(events)@ && final(sends)@ == old(sends)@,
                Some(s) => {
                    &&& final(self)@ == old(self)@.with_peer(fresh_peer(s, addr, connect_time, connection_number, now))
                    &&& event_views(final(events)@) == event_views(old(events)@).push(EventView::Connected((s + 1) as u32))
                    &&& datagram_views(final(sends)@) == datagram_views(old(sends)@).push(DatagramView { to: addr, bytes: accept_bytes(connect_time, connection_number, s as i32) })
                },
            },
    {
        let slot = match self.file_new_peer(addr, connect_time, connection_number, now) {
            Some(s) => s,
            None => return,
        };
        let accept = protocol::build_connect_accept(connect_time, connection_number, local_peer_id_of_slot(slot), false);
        send_to(sends, addr, &accept);
        emit(events, Event::Connected(peer_id_of_slot(slot)));
        proof {
            assert(accept@ =~= accept_bytes(connect_time, connection_number, slot as i32));
        }
    }

    /// Answer a ConnectRequest datagram from `addr`; see [`on_connect_request`].
    fn handle_connect_request(&mut self, data: &[u8], addr: Endpoint, now: u64, events: &mut Vec<Event>, sends: &mut Vec<Datagram>)
        requires
            old(self).wf(),
        ensures
            final(self).wf(),
            stepped(old(self)@, old(events)@, old(sends)@, on_connect_request(old(self)@, data@, addr, now), final(self)@, final(events)@, final(sends)@),
    {
        proof {
            lemma_keys_ordered();
        }
        let ghost t = self@;
        let req = match protocol::parse_connect_request(data) {
            Some(r) => r,
            None => {
                proof {
                    assert(event_views(old(events)@) + Seq::<EventView>::empty() =~= event_views(old(events)@));
                    assert(datagram_views(old(sends)@) + Seq::<DatagramView>::empty() =~= datagram_views(old(sends)@));
                }
                return;
            },
        };
        if req.protocol_id != protocol::PROTOCOL_ID {
            let reply = protocol::build_control(property::INVALID_PROTOCOL);
            send_to(sends, addr, &reply);
            proof {
                assert(event_views(old(events)@) + Seq::<EventView>::empty() =~= event_views(old(events)@));
                assert(datagram_views(final(sends)@) =~= datagram_views(old(sends)@) + seq![DatagramView { to: addr, bytes: control_bytes(property::INVALID_PROTOCOL) }]);
            }
            return;
        }
        let key_ok = match protocol::read_litenet_string(&req.connect_data) {
            Some(key) => key == self.connect_key,
            None => false,
        };
        if !key_ok {
            proof {
                assert(event_views(old(events)@) + Seq::<EventView>::empty() =~= event_views(old(events)@));
                assert(datagram_views(old(sends)@) + Seq::<DatagramView>::empty() =~= datagram_views(old(sends)@));
            }
            return;
        }
        let k = key_of(addr);
        let existing = match self.peers.get(&k) {
            Some(p) => Some(*p),
            None => None,
        };
        match existing {
            Some(e) => {
                // LiteNetLib orders this signed Int64 directly. Do not subtract:
                // a wrapped comparison could let a delayed request evict its
                // live successor.
                if req.connect_time < e.connect_time {
                    proof {
                        assert(event_views(old(events)@) + Seq::<EventView>::empty() =~= event_views(old(events)@));
                        assert(datagram_views(old(sends)@) + Seq::<DatagramView>::empty() =~= datagram_views(old(sends)@));
                    }
                    return;
                }
                if e.connect_time == req.connect_time {
                    // Retransmitted request: the client missed our accept.
                    let accept = protocol::build_connect_accept(e.connect_time, e.connection_number, e.local_peer_id, false);
                    send_to(sends, addr, &accept);
                    proof {
                        assert(event_views(old(events)@) + Seq::<EventView>::empty() =~= event_views(old(events)@));
                        assert(accept@ =~= accept_bytes(e.connect_time, e.connection_number, e.local_peer_id));
                        assert(datagram_views(final(sends)@) =~= datagram_views(old(sends)@) + seq![DatagramView { to: addr, bytes: accept_bytes(e.connect_time, e.connection_number, e.local_peer_id) }]);
                    }
                    return;
                }
                // A genuinely new session from the same address replaces the old one.
                let ghost events_before = event_views(old(events)@);
                self.remove_peer_at(addr);
                emit(events, Event::Disconnected(e.id, DisconnectReason::Remote));
                proof {
                    assert(t.peers.contains_key(k));
                    assert(peer_fits(t.peers[k], k, t.slots));
                    lemma_ip_live_positive(t.slots, e.slot as int, ip_key(addr));
                    assert(ip_live(self@.slots, ip_key(addr)) == ip_live(t.slots, ip_key(addr)) - 1);
                    assert(self@.ip_counts.contains_key(ip_key(addr)) <==> ip_live(self@.slots, ip_key(addr)) > 0);
                    assert(ip_live(t.slots, ip_key(addr)) <= t.max_peers_per_ip);
                }
                let ghost mid = self@;
                let ghost mid_events = events@;
                self.admit_requested(addr, req.connect_time, req.connection_number, now, events, sends);
                proof {
                    let before = seq![EventView::Disconnected(e.id, DisconnectReason::Remote)];
                    assert(event_views(mid_events) =~= events_before + before);
                    let st = admission(mid, addr, req@, now, before);
                    match mid.next_slot() {
                        None => {
                            assert(datagram_views(sends@) =~= datagram_views(old(sends)@) + st.2);
                        },
                        Some(sl) => {
                            assert(event_views(events@) =~= events_before + st.1);
                            assert(datagram_views(sends@) =~= datagram_views(old(sends)@) + st.2);
                        },
                    }
                }
            },
            None => {
                let ip = ip_of(addr);
                let ip_count = match self.peers_per_ip.get(&ip) {
                    Some(c) => *c,
                    None => 0,
                };
                if self.peers.len() >= self.max_peers || ip_count >= self.max_peers_per_ip {
                    proof {
                        assert(event_views(old(events)@) + Seq::<EventView>::empty() =~= event_views(old(events)@));
                        assert(datagram_views(old(sends)@) + Seq::<DatagramView>::empty() =~= datagram_views(old(sends)@));
                    }
                    return;
                }
                let ghost events_before = event_views(old(events)@);
                self.admit_requested(addr, req.connect_time, req.connection_number, now, events, sends);
                proof {
                    let st = admission(t, addr, req@, now, Seq::empty());
                    assert(t.count_for_ip(ip_key(addr)) == ip_count);
                    match t.next_slot() {
                        None => {
                            assert(event_views(events@) =~= events_before + st.1);
                            assert(datagram_views(sends@) =~= datagram_views(old(sends)@) + st.2);
                        },
                        Some(sl) => {
                            assert(event_views(events@) =~= events_before + st.1);
                            assert(datagram_views(sends@) =~= datagram_views(old(sends)@) + st.2);
                        },
                    }
                }
            },
        }
    }
}


/// `p` after a packet arrived from it at `now`.
pub open spec fn touched(p: Peer, now: u64) -> Peer {
    Peer { last_recv: now, ..p }
}

/// `a - b`, or 0 when `b` is later.
pub open spec fn elapsed(a: u64, b: u64) -> u64 {
    if a >= b {
        (a - b) as u64
    } else {
        0
    }
}

/// An Unreliable datagram from a live session: it refreshes the session
/// and is delivered without its header byte.
pub open spec fn on_unreliable(t: TableModel, data: Seq<u8>, addr: Endpoint, now: u64) -> Step {
    let k = endpoint_key(addr);
    if t.peers.contains_key(k) {
        let p = t.peers[k];
        (
            t.updated(k, touched(p, now)),
            seq![EventView::Data(p.id, data.subrange(1, data.len() as int))],
            Seq::empty(),
        )
    } else {
        no_step(t)
    }
}

/// A Ping from a live session: it refreshes the session and is answered
/// with a Pong echoing its sequence and carrying the host's .NET `ticks`.
pub open spec fn on_ping(t: TableModel, data: Seq<u8>, addr: Endpoint, now: u64, ticks: i64) -> Step {
    let k = endpoint_key(addr);
    match protocol::read_sequence_spec(data) {
        Some(sequence) if t.peers.contains_key(k) => {
            let p = t.peers[k];
            (
                t.updated(k, touched(p, now)),
                Seq::empty(),
                seq![DatagramView {
                    to: p.addr,
                    bytes: seq![protocol::session_byte(property::PONG, p.connection_number)]
                        + protocol::le_u16(sequence) + protocol::le_i64(ticks),
                }],
            )
        },
        _ => no_step(t),
    }
}

/// `p` after a Pong with `sequence` arrived at `now`: refreshed, and when it
/// answers the outstanding Ping, that Ping's round trip becomes the RTT.
pub open spec fn ponged(p: Peer, sequence: u16, now: u64) -> Peer {
    match p.ping_sent_at {
        Some(sent) if sequence == p.ping_seq => Peer {
            last_recv: now,
            rtt: Some(elapsed(now, sent)),
            ping_sent_at: None,
            ..p
        },
        _ => touched(p, now),
    }
}

/// A Pong from a live session.
pub open spec fn on_pong(t: TableModel, data: Seq<u8>, addr: Endpoint, now: u64) -> Step {
    let k = endpoint_key(addr);
    match protocol::read_sequence_spec(data) {
        Some(sequence) if t.peers.contains_key(k) => no_step(
            t.updated(k, ponged(t.peers[k], sequence, now)),
        ),
        _ => no_step(t),
    }
}

/// A Disconnect naming the live session's connect time ends it: it is
/// answered with `ShutdownOk` and reported as a `Remote` disconnect. Any
/// other Disconnect is ignored.
pub open spec fn on_disconnect(t: TableModel, data: Seq<u8>, addr: Endpoint) -> Step {
    let k = endpoint_key(addr);
    match protocol::read_disconnect_time_spec(data) {
        Some(time) if t.peers.contains_key(k) && t.peers[k].connect_time == time => (
            t.without_peer(k),
            seq![EventView::Disconnected(t.peers[k].id, DisconnectReason::Remote)],
            seq![DatagramView { to: addr, bytes: control_bytes(property::SHUTDOWN_OK) }],
        ),
        _ => no_step(t),
    }
}

/// The answer to one datagram from `addr`. Empty and fragmented datagrams
/// are dropped; anything but a ConnectRequest must come from a live session
/// and carry its connection number, else it is dropped before it can
/// refresh, answer or end anything. Properties outside the handshake,
/// Unreliable, Ping, Pong and Disconnect are ignored.
pub open spec fn on_datagram(t: TableModel, data: Seq<u8>, addr: Endpoint, now: u64, ticks: i64) -> Step {
    let k = endpoint_key(addr);
    if data.len() == 0 {
        no_step(t)
    } else {
        let h = protocol::header_of_byte(data[0]);
        if h.fragmented {
            no_step(t)
        } else if h.property != property::CONNECT_REQUEST && !(t.peers.contains_key(k)
            && h.connection_number == t.peers[k].connection_number) {
            no_step(t)
        } else if h.property == property::CONNECT_REQUEST {
            on_connect_request(t, data, addr, now)
        } else if h.property == property::UNRELIABLE {
            on_unreliable(t, data, addr, now)
        } else if h.property == property::PING {
            on_ping(t, data, addr, now, ticks)
        } else if h.property == property::PONG {
            on_pong(t, data, addr, now)
        } else if h.property == property::DISCONNECT {
            on_disconnect(t, data, addr)
        } else {
            no_step(t)
        }
    }
}

/// A Ping from a live session (its connection number, long enough to
/// carry a sequence) is answered with exactly one Pong, sent to that
/// session's address: the Pong is stamped with the session's connection
/// number, echoes the Ping's sequence, and its time field reads back as the
/// host's .NET ticks handed to the step, whatever they are.
pub proof fn lemma_ping_answered_with_host_time(
    t: TableModel,
    data: Seq<u8>,
    addr: Endpoint,
    now: u64,
    ticks: i64,
)
    requires
        data.len() >= 3,
        protocol::header_of_byte(data[0]).property == property::PING,
        !protocol::header_of_byte(data[0]).fragmented,
        t.peers.contains_key(endpoint_key(addr)),
        protocol::header_of_byte(data[0]).connection_number == t.peers[endpoint_key(
            addr,
        )].connection_number,
    ensures
        ({
            let p = t.peers[endpoint_key(addr)];
            let sends = on_datagram(t, data, addr, now, ticks).2;
            &&& sends.len() == 1
            &&& sends[0].to == p.addr
            &&& sends[0].bytes.len() == protocol::PONG_SIZE
            &&& protocol::header_of_byte(sends[0].bytes[0]) == (protocol::Header {
                property: property::PONG,
                connection_number: p.connection_number,
                fragmented: false,
            })
            &&& protocol::read_sequence_spec(sends[0].bytes) == protocol::read_sequence_spec(data)
            &&& protocol::read_le_i64(sends[0].bytes, 3) == ticks
        }),
{
    let p = t.peers[endpoint_key(addr)];
    let b0 = data[0];
    assert(((b0 & 0x60u8) >> 5u8) < 4) by (bit_vector);
    assert(p.connection_number < 4);
    let seq_no = protocol::read_sequence_spec(data)->0;
    protocol::lemma_session_byte_header(property::PONG, p.connection_number);
    let hb = protocol::session_byte(property::PONG, p.connection_number);
    protocol::lemma_pong_sequence_roundtrip(hb, seq_no, ticks);
    protocol::lemma_pong_time_roundtrip(hb, seq_no, ticks);
    let bytes = seq![hb] + protocol::le_u16(seq_no) + protocol::le_i64(ticks);
    assert(on_datagram(t, data, addr, now, ticks).2 == seq![DatagramView { to: p.addr, bytes }]);
    assert(bytes[0] == hb);
}

proof fn lemma_no_step_stepped(t: TableModel, events: Seq<Event>, sends: Seq<Datagram>)
    ensures
        stepped(t, events, sends, no_step(t), t, events, sends),
{
    assert(event_views(events) + Seq::<EventView>::empty() =~= event_views(events));
    assert(datagram_views(sends) + Seq::<DatagramView>::empty() =~= datagram_views(sends));
}

impl PeerTable {
    /// Replace the live session under `k` with `p`, which keeps its slot,
    /// endpoint and ids.
    fn replace_peer(&mut self, k: (u8, u128, u16), p: Peer)
        requires
            old(self).wf(),
            old(self)@.peers.contains_key(k),
            p.slot == old(self)@.peers[k].slot,
            p.addr == old(self)@.peers[k].addr,
            p.id == old(self)@.peers[k].id,
            p.local_peer_id == old(self)@.peers[k].local_peer_id,
        ensures
            final(self).wf(),
            final(self)@ == old(self)@.updated(k, p),
    {
        proof {
            lemma_keys_ordered();
        }
        let ghost t = self@;
        self.peers.insert(k, p);
        proof {
            assert(self@.peers.dom() =~= t.peers.dom());
            assert(self@ == t.updated(k, p));
            assert forall|k2: (u8, u128, u16)| #[trigger]
                self@.peers.contains_key(k2) implies peer_fits(self@.peers[k2], k2, self@.slots) by {
                assert(peer_fits(t.peers[k2], k2, t.slots));
            }
        }
    }

    fn handle_unreliable(&mut self, data: &[u8], addr: Endpoint, now: u64, events: &mut Vec<Event>)
        requires
            old(self).wf(),
            data@.len() >= 1,
        ensures
            final(self).wf(),
            stepped(old(self)@, old(events)@, Seq::empty(), on_unreliable(old(self)@, data@, addr, now), final(self)@, final(events)@, Seq::empty()),
    {
        proof {
            lemma_keys_ordered();
        }
        let k = key_of(addr);
        let p = match self.peers.get(&k) {
            Some(p) => *p,
            None => {
                proof {
                    lemma_no_step_stepped(self@, events@, Seq::empty());
                }
                return;
            },
        };
        self.replace_peer(k, Peer { last_recv: now, ..p });
        let payload = vstd::slice::slice_to_vec(vstd::slice::slice_subrange(data, protocol::HEADER_SIZE, data.len()));
        emit(events, Event::Data(p.id, payload));
        proof {
            assert(datagram_views(Seq::<Datagram>::empty()) + Seq::<DatagramView>::empty() =~= datagram_views(Seq::<Datagram>::empty()));
            assert(event_views(events@) =~= event_views(old(events)@) + seq![EventView::Data(p.id, data@.subrange(1, data@.len() as int))]);
        }
    }

    fn handle_ping(&mut self, data: &[u8], addr: Endpoint, now: u64, ticks: i64, sends: &mut Vec<Datagram>)
        requires
            old(self).wf(),
        ensures
            final(self).wf(),
            stepped(old(self)@, Seq::empty(), old(sends)@, on_ping(old(self)@, data@, addr, now, ticks), final(self)@, Seq::empty(), final(sends)@),
    {
        proof {
            lemma_keys_ordered();
        }
        let sequence = match protocol::read_sequence(data) {
            Some(q) => q,
            None => {
                proof {
                    lemma_no_step_stepped(self@, Seq::empty(), sends@);
                }
                return;
            },
        };
        let k = key_of(addr);
        let p = match self.peers.get(&k) {
            Some(p) => *p,
            None => {
                proof {
                    lemma_no_step_stepped(self@, Seq::empty(), sends@);
                }
                return;
            },
        };
        self.replace_peer(k, Peer { last_recv: now, ..p });
        let pong = protocol::build_pong_for(p.connection_number, sequence, ticks);
        send_to(sends, p.addr, &pong);
        proof {
            assert(event_views(Seq::<Event>::empty()) + Seq::<EventView>::empty() =~= event_views(Seq::<Event>::empty()));
            assert(datagram_views(sends@) =~= datagram_views(old(sends)@) + on_ping(old(self)@, data@, addr, now, ticks).2);
        }
    }

    fn handle_pong(&mut self, data: &[u8], addr: Endpoint, now: u64)
        requires
            old(self).wf(),
        ensures
            final(self).wf(),
            final(self)@ == on_pong(old(self)@, data@, addr, now).0,
            on_pong(old(self)@, data@, addr, now).1.len() == 0,
            on_pong(old(self)@, data@, addr, now).2.len() == 0,
    {
        proof {
            lemma_keys_ordered();
        }
        let sequence = match protocol::read_sequence(data) {
            Some(q) => q,
            None => return,
        };
        let k = key_of(addr);
        let p = match self.peers.get(&k) {
            Some(p) => *p,
            None => return,
        };
        let mut q = Peer { last_recv: now, ..p };
        if sequence == p.ping_seq {
            if let Some(sent) = p.ping_sent_at {
                q.rtt = Some(now.saturating_sub(sent));
                q.ping_sent_at = None;
            }
        }
        self.replace_peer(k, q);
    }

    fn handle_disconnect(&mut self, data: &[u8], addr: Endpoint, events: &mut Vec<Event>, sends: &mut Vec<Datagram>)
        requires
            old(self).wf(),
        ensures
            final(self).wf(),
            stepped(old(self)@, old(events)@, old(sends)@, on_disconnect(old(self)@, data@, addr), final(self)@, final(events)@, final(sends)@),
    {
        proof {
            lemma_keys_ordered();
        }
        let time = match protocol::read_disconnect_time(data) {
            Some(t) => t,
            None => {
                proof {
                    lemma_no_step_stepped(self@, events@, sends@);
                }
                return;
            },
        };
        let k = key_of(addr);
        let p = match self.peers.get(&k) {
            Some(p) => *p,
            None => {
                proof {
                    lemma_no_step_stepped(self@, events@, sends@);
                }
                return;
            },
        };
        if p.connect_time != time {
            proof {
                lemma_no_step_stepped(self@, events@, sends@);
            }
            return;
        }
        let reply = protocol::build_control(property::SHUTDOWN_OK);
        send_to(sends, addr, &reply);
        self.remove_peer_at(addr);
        emit(events, Event::Disconnected(p.id, DisconnectReason::Remote));
        proof {
            let st = on_disconnect(old(self)@, data@, addr);
            assert(event_views(events@) =~= event_views(old(events)@) + st.1);
            assert(datagram_views(sends@) =~= datagram_views(old(sends)@) + st.2);
        }
    }

    /// Handle one datagram from `addr` received at `now`; `ticks` is the
    /// host's wall clock in .NET ticks, carried by any Pong it sends. See
    /// [`on_datagram`].
    pub fn handle_datagram(&mut self, data: &[u8], addr: Endpoint, now: u64, ticks: i64, events: &mut Vec<Event>, sends: &mut Vec<Datagram>)
        requires
            old(self).wf(),
        ensures
            final(self).wf(),
            stepped(old(self)@, old(events)@, old(sends)@, on_datagram(old(self)@, data@, addr, now, ticks), final(self)@, final(events)@, final(sends)@),
    {
        proof {
            lemma_keys_ordered();
        }
        if data.len() == 0 {
            proof {
                lemma_no_step_stepped(self@, events@, sends@);
            }
            return;
        }
        let header = protocol::Header::from_byte(data[0]);
        // No fragmentation support: drop any packet flagged fragmented.
        if header.fragmented {
            proof {
                lemma_no_step_stepped(self@, events@, sends@);
            }
            return;
        }
        if header.property != property::CONNECT_REQUEST {
            let k = key_of(addr);
            let live_number = match self.peers.get(&k) {
                Some(p) => p.connection_number,
                None => {
                    proof {
                        lemma_no_step_stepped(self@, events@, sends@);
                    }
                    return;
                },
            };
            if header.connection_number != live_number {
                proof {
                    lemma_no_step_stepped(self@, events@, sends@);
                }
                return;
            }
        }
        if header.property == property::CONNECT_REQUEST {
            self.handle_connect_request(data, addr, now, events, sends);
        } else if header.property == property::UNRELIABLE {
            self.handle_unreliable(data, addr, now, events);
            proof {
                assert(datagram_views(sends@) + Seq::<DatagramView>::empty() =~= datagram_views(sends@));
            }
        } else if header.property == property::PING {
            self.handle_ping(data, addr, now, ticks, sends);
            proof {
                assert(event_views(events@) + Seq::<EventView>::empty() =~= event_views(events@));
            }
        } else if header.property == property::PONG {
            self.handle_pong(data, addr, now);
            proof {
                lemma_no_step_stepped(self@, events@, sends@);
            }
        } else if header.property == property::DISCONNECT {
            self.handle_disconnect(data, addr, events, sends);
        } else {
            // MtuCheck is ignored: with a fixed MTU the negotiated size never
            // grows. Everything else outside this subset is unused.
            proof {
                lemma_no_step_stepped(self@, events@, sends@);
            }
        }
    }
}


/// What one poll has consumed so far: socket datagrams and bytes, events
/// from the socket and from timeouts, slots inspected, keepalives sent.
#[derive(Debug, Clone, Copy, PartialEq, Eq, Structural)]
pub struct PollWork {
    pub packets: usize,
    pub bytes: usize,
    pub socket_events: usize,
    pub timeout_events: usize,
    pub maintenance_scans: usize,
    pub keepalive_sends: usize,
}

impl PollWork {
    /// Nothing consumed yet.
    pub fn new() -> (w: PollWork)
        ensures
            w == (PollWork {
                packets: 0,
                bytes: 0,
                socket_events: 0,
                timeout_events: 0,
                maintenance_scans: 0,
                keepalive_sends: 0,
            }),
    {
        PollWork {
            packets: 0,
            bytes: 0,
            socket_events: 0,
            timeout_events: 0,
            maintenance_scans: 0,
            keepalive_sends: 0,
        }
    }

    /// Every counter is within its per-poll ceiling.
    pub open spec fn within_budget(self) -> bool {
        &&& self.packets <= MAX_POLL_PACKETS
        &&& self.bytes <= MAX_POLL_BYTES
        &&& self.socket_events <= MAX_POLL_SOCKET_EVENTS
        &&& self.timeout_events <= MAX_POLL_TIMEOUT_EVENTS
        &&& self.maintenance_scans <= MAX_POLL_MAINTENANCE_SCANS
        &&& self.keepalive_sends <= MAX_POLL_KEEPALIVE_SENDS
    }

    /// Whether the poll may take another datagram off the socket.
    pub fn can_receive(&self) -> (r: bool)
        ensures
            r == (self.packets < MAX_POLL_PACKETS && self.bytes < MAX_POLL_BYTES),
    {
        self.packets < MAX_POLL_PACKETS && self.bytes < MAX_POLL_BYTES
    }

    /// Socket bytes the poll may still take.
    pub fn remaining_bytes(&self) -> (r: usize)
        requires
            self.bytes <= MAX_POLL_BYTES,
        ensures
            r == MAX_POLL_BYTES - self.bytes,
    {
        MAX_POLL_BYTES - self.bytes
    }

    /// Count a socket read that failed with a connection reset: it costs a
    /// packet and carries nothing.
    pub fn record_reset(&mut self)
        requires
            old(self).packets < MAX_POLL_PACKETS,
        ensures
            *final(self) == (PollWork { packets: (old(self).packets + 1) as usize, ..*old(self) }),
    {
        self.packets = self.packets + 1;
    }

    /// Count a received datagram of `n` bytes; whether it fits the fixed MTU
    /// and so should be handled at all.
    pub fn record_datagram(&mut self, n: usize) -> (handle: bool)
        requires
            old(self).packets < MAX_POLL_PACKETS,
            old(self).bytes + n <= MAX_POLL_BYTES,
        ensures
            *final(self) == (PollWork {
                packets: (old(self).packets + 1) as usize,
                bytes: (old(self).bytes + n) as usize,
                ..*old(self)
            }),
            handle == (n <= protocol::MTU),
    {
        self.packets = self.packets + 1;
        self.bytes = self.bytes + n;
        n <= protocol::MTU
    }
}

/// `p` after the host pinged it at `now`: the next sequence (wrapping),
/// the send time, and a Ping outstanding.
pub open spec fn pinged(p: Peer, now: u64) -> Peer {
    Peer {
        ping_seq: if p.ping_seq == 0xffff {
            0
        } else {
            (p.ping_seq + 1) as u16
        },
        last_ping_sent: now,
        ping_sent_at: Some(now),
        ..p
    }
}

/// One maintenance inspection of a table with `slot_count` slots: the cursor
/// wraps to 0 at the end and moves past the inspected slot. A live peer
/// silent for longer than the timeout is dropped (`Timeout`) while the
/// poll's timeout-event budget lasts, and left for a later poll otherwise; a
/// live peer last pinged at least one interval ago is pinged while the
/// keepalive budget lasts.
pub open spec fn maintenance_step(t: TableModel, now: u64, w: PollWork, slot_count: nat) -> (Step, PollWork) {
    let slot = if t.cursor >= slot_count {
        0
    } else {
        t.cursor
    };
    let t1 = TableModel { cursor: slot + 1, ..t };
    let w1 = PollWork { maintenance_scans: (w.maintenance_scans + 1) as usize, ..w };
    match t.slots[slot as int] {
        None => (no_step(t1), w1),
        Some(addr) => {
            let k = endpoint_key(addr);
            let p = t.peers[k];
            if t.peers.contains_key(k) && elapsed(now, p.last_recv) > t.timeout {
                if w1.timeout_events < MAX_POLL_TIMEOUT_EVENTS {
                    (
                        (
                            t1.without_peer(k),
                            seq![EventView::Disconnected(p.id, DisconnectReason::Timeout)],
                            Seq::empty(),
                        ),
                        PollWork { timeout_events: (w1.timeout_events + 1) as usize, ..w1 },
                    )
                } else {
                    (no_step(t1), w1)
                }
            } else if w1.keepalive_sends >= MAX_POLL_KEEPALIVE_SENDS || !t.peers.contains_key(k)
                || elapsed(now, p.last_ping_sent) < PING_INTERVAL_NS {
                (no_step(t1), w1)
            } else {
                let q = pinged(p, now);
                (
                    (
                        t1.updated(k, q),
                        Seq::empty(),
                        seq![DatagramView {
                            to: p.addr,
                            bytes: seq![protocol::session_byte(property::PING, p.connection_number)]
                                + protocol::le_u16(q.ping_seq),
                        }],
                    ),
                    PollWork { keepalive_sends: (w1.keepalive_sends + 1) as usize, ..w1 },
                )
            }
        },
    }
}

/// `n` maintenance inspections in a row.
pub open spec fn maintenance_steps(t: TableModel, now: u64, w: PollWork, slot_count: nat, n: nat) -> (Step, PollWork)
    decreases n,
{
    if n == 0 {
        (no_step(t), w)
    } else {
        let (st, w1) = maintenance_steps(t, now, w, slot_count, (n - 1) as nat);
        let (st2, w2) = maintenance_step(st.0, now, w1, slot_count);
        ((st2.0, st.1 + st2.1, st.2 + st2.2), w2)
    }
}

/// How many slots one poll inspects.
pub open spec fn scan_count(slot_count: nat) -> nat {
    if slot_count < MAX_POLL_MAINTENANCE_SCANS {
        slot_count
    } else {
        MAX_POLL_MAINTENANCE_SCANS as nat
    }
}

/// One poll's maintenance: with no slots the cursor rests at 0; otherwise
/// the round-robin cursor inspects up to `MAX_POLL_MAINTENANCE_SCANS` slots.
pub open spec fn on_maintenance(t: TableModel, now: u64, w: PollWork) -> (Step, PollWork) {
    if t.slots.len() == 0 {
        (no_step(TableModel { cursor: 0, ..t }), w)
    } else {
        maintenance_steps(t, now, w, t.slots.len(), scan_count(t.slots.len()))
    }
}

impl PeerTable {
    /// Mark the start of a poll: slots retired before now become reusable.
    pub fn begin_poll(&mut self)
        requires
            old(self).wf(),
        ensures
            final(self).wf(),
            final(self)@ == (TableModel { available: old(self)@.free.len(), ..old(self)@ }),
    {
        self.available_free_peer_slots = self.free_peer_slots.len();
    }

    /// Inspect the slot under the maintenance cursor; see
    /// [`maintenance_step`].
    fn maintain_one(&mut self, now: u64, slot_count: usize, events: &mut Vec<Event>, sends: &mut Vec<Datagram>, work: &mut PollWork)
        requires
            old(self).wf(),
            old(self)@.slots.len() == slot_count,
            slot_count > 0,
            old(work).maintenance_scans < MAX_POLL_MAINTENANCE_SCANS,
            old(work).timeout_events <= MAX_POLL_TIMEOUT_EVENTS,
            old(work).keepalive_sends <= MAX_POLL_KEEPALIVE_SENDS,
        ensures
            final(self).wf(),
            final(self)@.slots.len() == slot_count,
            stepped(old(self)@, old(events)@, old(sends)@, maintenance_step(old(self)@, now, *old(work), slot_count as nat).0, final(self)@, final(events)@, final(sends)@),
            *final(work) == maintenance_step(old(self)@, now, *old(work), slot_count as nat).1,
    {
        proof {
            lemma_keys_ordered();
        }
        let ghost t = self@;
        if self.maintenance_cursor >= slot_count {
            self.maintenance_cursor = 0;
        }
        let slot = self.maintenance_cursor;
        self.maintenance_cursor = self.maintenance_cursor + 1;
        work.maintenance_scans = work.maintenance_scans + 1;
        let ghost t1 = self@;
        proof {
            assert(t1 == TableModel { cursor: (slot + 1) as nat, ..t });
        }
        let addr = match self.peer_slots[slot] {
            Some(a) => a,
            None => {
                proof {
                    lemma_no_step_stepped(self@, events@, sends@);
                }
                return;
            },
        };
        let k = key_of(addr);
        let peer = match self.peers.get(&k) {
            Some(p) => Some(*p),
            None => None,
        };
        let expired = match peer {
            Some(p) => now.saturating_sub(p.last_recv) > self.timeout,
            None => false,
        };
        if expired {
            if work.timeout_events < MAX_POLL_TIMEOUT_EVENTS {
                if let Some(p) = self.remove_peer_at(addr) {
                    emit(events, Event::Disconnected(p.id, DisconnectReason::Timeout));
                    work.timeout_events = work.timeout_events + 1;
                    proof {
                        let st = maintenance_step(t, now, *old(work), slot_count as nat).0;
                        assert(self@ == st.0);
                        assert(event_views(events@) =~= event_views(old(events)@) + st.1);
                        assert(datagram_views(sends@) =~= datagram_views(old(sends)@) + st.2);
                    }
                    return;
                }
            }
            proof {
                lemma_no_step_stepped(self@, events@, sends@);
            }
            return;
        }
        if work.keepalive_sends >= MAX_POLL_KEEPALIVE_SENDS {
            proof {
                lemma_no_step_stepped(self@, events@, sends@);
            }
            return;
        }
        let p = match peer {
            Some(p) => p,
            None => {
                proof {
                    lemma_no_step_stepped(self@, events@, sends@);
                }
                return;
            },
        };
        if now.saturating_sub(p.last_ping_sent) < PING_INTERVAL_NS {
            proof {
                lemma_no_step_stepped(self@, events@, sends@);
            }
            return;
        }
        let next_seq: u16 = if p.ping_seq == 0xffff {
            0
        } else {
            p.ping_seq + 1
        };
        let q = Peer { ping_seq: next_seq, last_ping_sent: now, ping_sent_at: Some(now), ..p };
        self.replace_peer(k, q);
        let ping = protocol::build_ping_for(p.connection_number, next_seq);
        send_to(sends, p.addr, &ping);
        work.keepalive_sends = work.keepalive_sends + 1;
        proof {
            let st = maintenance_step(t, now, *old(work), slot_count as nat).0;
            assert(q == pinged(p, now));
            assert(self@ == st.0);
            assert(event_views(events@) =~= event_views(old(events)@) + st.1);
            assert(datagram_views(sends@) =~= datagram_views(old(sends)@) + st.2);
        }
    }

    /// One poll's timeout and keepalive maintenance; see [`on_maintenance`].
    /// The poll's maintenance counters start at zero and stay within their
    /// ceilings.
    pub fn process_peer_maintenance(&mut self, now: u64, events: &mut Vec<Event>, sends: &mut Vec<Datagram>, work: &mut PollWork)
        requires
            old(self).wf(),
            old(work).maintenance_scans == 0,
            old(work).timeout_events == 0,
            old(work).keepalive_sends == 0,
        ensures
            final(self).wf(),
            stepped(old(self)@, old(events)@, old(sends)@, on_maintenance(old(self)@, now, *old(work)).0, final(self)@, final(events)@, final(sends)@),
            *final(work) == on_maintenance(old(self)@, now, *old(work)).1,
            final(work).maintenance_scans == scan_count(old(self)@.slots.len()),
            final(work).timeout_events <= MAX_POLL_TIMEOUT_EVENTS,
            final(work).keepalive_sends <= MAX_POLL_KEEPALIVE_SENDS,
    {
        let ghost t0 = self@;
        let ghost w0 = *work;
        let slot_count = self.peer_slots.len();
        if slot_count == 0 {
            self.maintenance_cursor = 0;
            proof {
                lemma_no_step_stepped(self@, events@, sends@);
            }
            return;
        }
        let scans = if slot_count < MAX_POLL_MAINTENANCE_SCANS {
            slot_count
        } else {
            MAX_POLL_MAINTENANCE_SCANS
        };
        let mut i: usize = 0;
        proof {
            lemma_no_step_stepped(t0, events@, sends@);
        }
        while i < scans
            invariant
                self.wf(),
                self@.slots.len() == slot_count,
                slot_count == t0.slots.len(),
                slot_count > 0,
                scans == scan_count(slot_count as nat),
                0 <= i <= scans,
                work.maintenance_scans == i,
                work.timeout_events <= MAX_POLL_TIMEOUT_EVENTS,
                work.keepalive_sends <= MAX_POLL_KEEPALIVE_SENDS,
                stepped(t0, old(events)@, old(sends)@, maintenance_steps(t0, now, w0, slot_count as nat, i as nat).0, self@, events@, sends@),
                *work == maintenance_steps(t0, now, w0, slot_count as nat, i as nat).1,
            decreases scans - i,
        {
            let ghost ev_before = events@;
            let ghost sd_before = sends@;
            self.maintain_one(now, slot_count, events, sends, work);
            proof {
                let (st, w1) = maintenance_steps(t0, now, w0, slot_count as nat, i as nat);
                let (st2, w2) = maintenance_step(st.0, now, w1, slot_count as nat);
                assert(event_views(events@) =~= event_views(old(events)@) + (st.1 + st2.1));
                assert(datagram_views(sends@) =~= datagram_views(old(sends)@) + (st.2 + st2.2));
            }
            i = i + 1;
        }
    }
}


/// Why an application payload could not be sent.
#[derive(Debug, Clone, Copy, PartialEq, Eq, Structural)]
pub enum SendError {
    /// The payload exceeds the fixed MTU; fragmentation is not supported.
    PayloadTooLarge,
}

/// The Disconnect a host sends to end the session `p`.
pub open spec fn disconnect_bytes(p: Peer) -> Seq<u8> {
    seq![protocol::session_byte(property::DISCONNECT, p.connection_number)] + protocol::le_i64(
        p.connect_time,
    )
}

/// The events and Disconnect datagrams of a shutdown, over the first `n`
/// slots in slot order.
pub open spec fn shutdown_effects(t: TableModel, n: nat) -> (Seq<EventView>, Seq<DatagramView>)
    decreases n,
{
    if n == 0 {
        (Seq::empty(), Seq::empty())
    } else {
        let (e, d) = shutdown_effects(t, (n - 1) as nat);
        match t.slots[n - 1] {
            None => (e, d),
            Some(a) => {
                let p = t.peers[endpoint_key(a)];
                (
                    e.push(EventView::Disconnected(p.id, DisconnectReason::Shutdown)),
                    d.push(DatagramView { to: p.addr, bytes: disconnect_bytes(p) }),
                )
            },
        }
    }
}

/// The table with every session, slot and counter gone.
pub open spec fn emptied(t: TableModel) -> TableModel {
    TableModel {
        peers: Map::empty(),
        slots: Seq::empty(),
        free: Seq::empty(),
        available: 0,
        ip_counts: Map::empty(),
        cursor: 0,
        ..t
    }
}

impl PeerTable {
    /// The Unreliable datagram carrying `bytes` to `peer`: an error above
    /// the fixed MTU, nothing for an unknown (already disconnected) peer.
    pub fn send_unreliable(&self, peer: PeerId, bytes: &[u8]) -> (r: Result<Option<Datagram>, SendError>)
        requires
            self.wf(),
        ensures
            match r {
                Err(e) => e == SendError::PayloadTooLarge && bytes@.len() > protocol::MTU - protocol::HEADER_SIZE,
                Ok(None) => bytes@.len() <= protocol::MTU - protocol::HEADER_SIZE && self@.addr_of(peer) is None,
                Ok(Some(d)) => {
                    &&& bytes@.len() <= protocol::MTU - protocol::HEADER_SIZE
                    &&& self@.addr_of(peer) == Some(d.to)
                    &&& d.bytes@ == seq![protocol::session_byte(property::UNRELIABLE, self@.peers[endpoint_key(d.to)].connection_number)] + bytes@
                },
            },
    {
        proof {
            lemma_keys_ordered();
        }
        if bytes.len() > protocol::MTU - protocol::HEADER_SIZE {
            return Err(SendError::PayloadTooLarge);
        }
        let addr = match self.peer_addr(peer) {
            Some(a) => a,
            None => return Ok(None),
        };
        let connection_number = match self.peers.get(&key_of(addr)) {
            Some(p) => p.connection_number,
            None => return Ok(None),
        };
        Ok(Some(Datagram { to: addr, bytes: protocol::build_unreliable_for(connection_number, bytes) }))
    }

    /// Remove one peer immediately; the Disconnect datagram to send it.
    /// No event is reported: the caller already owns the session cleanup.
    pub fn disconnect(&mut self, peer: PeerId) -> (r: Option<Datagram>)
        requires
            old(self).wf(),
        ensures
            final(self).wf(),
            match r {
                None => old(self)@.addr_of(peer) is None && final(self)@ == old(self)@,
                Some(d) => {
                    &&& old(self)@.addr_of(peer) == Some(d.to)
                    &&& final(self)@ == old(self)@.without_peer(endpoint_key(d.to))
                    &&& d.bytes@ == disconnect_bytes(old(self)@.peers[endpoint_key(d.to)])
                },
            },
    {
        let addr = match self.peer_addr(peer) {
            Some(a) => a,
            None => return None,
        };
        let p = match self.remove_peer_at(addr) {
            Some(p) => p,
            None => return None,
        };
        let packet = protocol::build_disconnect_for(p.connection_number, p.connect_time);
        proof {
            assert(peer_fits(p, endpoint_key(addr), old(self)@.slots));
        }
        Some(Datagram { to: p.addr, bytes: vstd::slice::slice_to_vec(&packet) })
    }

    /// Disconnect every peer: a Disconnect datagram and a `Shutdown` event
    /// for each, in slot order; the table is left empty.
    pub fn shutdown(&mut self) -> (r: (Vec<Event>, Vec<Datagram>))
        requires
            old(self).wf(),
        ensures
            final(self).wf(),
            final(self)@ == emptied(old(self)@),
            event_views(r.0@) == shutdown_effects(old(self)@, old(self)@.slots.len()).0,
            datagram_views(r.1@) == shutdown_effects(old(self)@, old(self)@.slots.len()).1,
    {
        proof {
            lemma_keys_ordered();
        }
        let ghost t = self@;
        let mut events: Vec<Event> = Vec::new();
        let mut sends: Vec<Datagram> = Vec::new();
        let mut s: usize = 0;
        proof {
            assert(event_views(events@) =~= Seq::<EventView>::empty());
            assert(datagram_views(sends@) =~= Seq::<DatagramView>::empty());
        }
        while s < self.peer_slots.len()
            invariant
                self@ == t,
                t.wf(),
                s <= t.slots.len(),
                event_views(events@) == shutdown_effects(t, s as nat).0,
                datagram_views(sends@) == shutdown_effects(t, s as nat).1,
            decreases t.slots.len() - s,
        {
            if let Some(addr) = self.peer_slots[s] {
                if let Some(p) = self.peers.get(&key_of(addr)) {
                    let packet = protocol::build_disconnect_for(p.connection_number, p.connect_time);
                    send_to(&mut sends, p.addr, &packet);
                    emit(&mut events, Event::Disconnected(p.id, DisconnectReason::Shutdown));
                }
            }
            s = s + 1;
        }
        self.peers = BTreeMap::new();
        self.peer_slots = Vec::new();
        self.free_peer_slots = VecDeque::new();
        self.available_free_peer_slots = 0;
        self.peers_per_ip = BTreeMap::new();
        self.maintenance_cursor = 0;
        proof {
            assert(self@ =~= emptied(t));
            assert(self@.peers.dom() =~= Set::empty());
            assert forall|ip: (u8, u128)| #[trigger] ip_live(self@.slots, ip) == 0 by {}
        }
        (events, sends)
    }
}


/// No more slots hold a peer than there are slots.
pub proof fn lemma_live_at_most_slots(slots: Seq<Option<Endpoint>>)
    ensures
        live(slots) <= slots.len(),
    decreases slots.len(),
{
    if slots.len() > 0 {
        lemma_live_at_most_slots(slots.drop_last());
    }
}

/// The ceilings hold in every consistent table: at most `max_peers` live
/// peers in all, and at most `max_peers_per_ip` from any one source IP.
pub proof fn lemma_ceilings_hold(t: TableModel, ip: (u8, u128))
    requires
        t.wf(),
    ensures
        t.peers.len() <= t.max_peers,
        t.count_for_ip(ip) <= t.max_peers_per_ip,
        t.count_for_ip(ip) == ip_live(t.slots, ip),
{
    lemma_live_at_most_slots(t.slots);
    assert(t.ip_counts.contains_key(ip) <==> ip_live(t.slots, ip) > 0);
    assert(ip_live(t.slots, ip) <= t.max_peers_per_ip);
}

/// Two live sessions never share a peer id, and a live session's id names
/// its own endpoint.
pub proof fn lemma_peer_ids_are_unique(t: TableModel, k1: (u8, u128, u16), k2: (u8, u128, u16))
    requires
        t.wf(),
        t.peers.contains_key(k1),
        t.peers.contains_key(k2),
        k1 != k2,
    ensures
        t.peers[k1].id != t.peers[k2].id,
        t.addr_of(t.peers[k1].id) == Some(t.peers[k1].addr),
{
    assert(peer_fits(t.peers[k1], k1, t.slots));
    assert(peer_fits(t.peers[k2], k2, t.slots));
}

/// A slot retired during a poll is never handed out again in that poll:
/// right after a removal the next admission takes another slot.
pub proof fn lemma_retired_slot_waits_for_next_poll(t: TableModel, k: (u8, u128, u16))
    requires
        t.wf(),
        t.peers.contains_key(k),
    ensures
        t.without_peer(k).next_slot() != Some(t.peers[k].slot),
{
    let p = t.peers[k];
    assert(peer_fits(p, k, t.slots));
    let u = t.without_peer(k);
    if u.slots.len() >= u.max_peers && u.available > 0 {
        assert(u.free[0] == t.free[0]);
        assert(t.slots[t.free[0] as int] is None);
    }
}

/// One datagram produces at most two events: a replaced session's
/// disconnect and its successor's connect.
pub proof fn lemma_datagram_events_bounded(t: TableModel, data: Seq<u8>, addr: Endpoint, now: u64, ticks: i64)
    requires
        t.wf(),
    ensures
        on_datagram(t, data, addr, now, ticks).1.len() <= 2,
        on_datagram(t, data, addr, now, ticks).2.len() <= 1,
{
}

/// Anything but a ConnectRequest that carries a connection number other
/// than its endpoint's live session's is inert: it refreshes, answers and
/// ends nothing.
pub proof fn lemma_stale_session_traffic_is_inert(t: TableModel, data: Seq<u8>, addr: Endpoint, now: u64, ticks: i64)
    requires
        data.len() > 0,
        protocol::header_of_byte(data[0]).property != property::CONNECT_REQUEST,
        t.peers.contains_key(endpoint_key(addr)) ==> protocol::header_of_byte(data[0]).connection_number
            != t.peers[endpoint_key(addr)].connection_number,
    ensures
        on_datagram(t, data, addr, now, ticks) == no_step(t),
{
}

/// A ConnectRequest older than the endpoint's live session changes nothing
/// and is not answered; a retransmission of the live session's own request
/// changes nothing and is answered with that session's original accept.
pub proof fn lemma_only_newer_requests_replace(t: TableModel, data: Seq<u8>, addr: Endpoint, now: u64)
    requires
        t.peers.contains_key(endpoint_key(addr)),
        protocol::parse_connect_request_spec(data) matches Some(req) && req.connect_time
            <= t.peers[endpoint_key(addr)].connect_time,
    ensures
        on_connect_request(t, data, addr, now).0 == t,
        on_connect_request(t, data, addr, now).1.len() == 0,
{
}


impl PeerTable {
    /// The live session at `addr`.
    pub fn peer_at(&self, addr: Endpoint) -> (r: Option<Peer>)
        requires
            self.wf(),
        ensures
            r == if self@.peers.contains_key(endpoint_key(addr)) {
                Some(self@.peers[endpoint_key(addr)])
            } else {
                None
            },
    {
        proof {
            lemma_keys_ordered();
        }
        match self.peers.get(&key_of(addr)) {
            Some(p) => Some(*p),
            None => None,
        }
    }

    /// Number of transport slots ever allocated (live or retired).
    pub fn slot_count(&self) -> (r: usize)
        ensures
            r == self@.slots.len(),
    {
        self.peer_slots.len()
    }

    /// The endpoint whose session occupies `slot`, if any.
    pub fn slot_holder(&self, slot: usize) -> (r: Option<Endpoint>)
        ensures
            r == if slot < self@.slots.len() {
                self@.slots[slot as int]
            } else {
                None
            },
    {
        if slot < self.peer_slots.len() {
            self.peer_slots[slot]
        } else {
            None
        }
    }

    /// Retired slots, oldest first.
    pub fn free_slots(&self) -> (r: Vec<usize>)
        ensures
            r@ == self@.free,
    {
        let mut out: Vec<usize> = Vec::new();
        let mut i: usize = 0;
        while i < self.free_peer_slots.len()
            invariant
                i <= self@.free.len(),
                out@ == self@.free.subrange(0, i as int),
            decreases self@.free.len() - i,
        {
            out.push(self.free_peer_slots[i]);
            i = i + 1;
            proof {
                assert(out@ =~= self@.free.subrange(0, i as int));
            }
        }
        proof {
            assert(out@ =~= self@.free);
        }
        out
    }

    /// How many of the oldest retired slots this poll may reuse.
    pub fn reusable_slots(&self) -> (r: usize)
        ensures
            r == self@.available,
    {
        self.available_free_peer_slots
    }

    /// The next slot maintenance inspects.
    pub fn maintenance_cursor(&self) -> (r: usize)
        ensures
            r == self@.cursor,
    {
        self.maintenance_cursor
    }
}


proof fn lemma_mod_successor(a: int, n: int)
    requires
        a >= 0,
        n > 0,
    ensures
        (if a % n + 1 >= n {
            0
        } else {
            a % n + 1
        }) == (a + 1) % n,
{
    assert((if a % n + 1 >= n {
        0
    } else {
        a % n + 1
    }) == (a + 1) % n) by (nonlinear_arith)
        requires
            a >= 0,
            n > 0,
    ;
}

proof fn lemma_steps_cursor(t: TableModel, now: u64, w: PollWork, n: nat, k: nat)
    requires
        n > 0,
        t.cursor <= n,
        k >= 1,
    ensures
        maintenance_steps(t, now, w, n, k).0.0.cursor == ((t.cursor % n) + k - 1) % (n as int) + 1,
    decreases k,
{
    let c = t.cursor as int;
    let m = n as int;
    let start = c % m;
    assert(0 <= start < m && start % m == start && (c < m ==> start == c) && (c == m ==> start
        == 0)) by (nonlinear_arith)
        requires
            0 <= c <= m,
            m > 0,
            start == c % m,
    ;
    if k == 1 {
        let (st, w1) = maintenance_steps(t, now, w, n, 0);
        assert(st.0 == t);
    } else {
        lemma_steps_cursor(t, now, w, n, (k - 1) as nat);
        let a = start + k - 2;
        lemma_mod_successor(a, m);
    }
}

/// Maintenance is round-robin: one poll over a table with `n > 0` slots
/// inspects `scan_count(n)` consecutive slots, wrapping at `n`, beginning
/// where the previous poll stopped, and leaves the cursor just past the last
/// one; so every slot is inspected within `ceil(n / MAX_POLL_MAINTENANCE_SCANS)`
/// polls.
pub proof fn lemma_maintenance_is_round_robin(t: TableModel, now: u64, w: PollWork)
    requires
        t.wf(),
        t.slots.len() > 0,
    ensures
        on_maintenance(t, now, w).0.0.cursor == ((t.cursor % t.slots.len()) + scan_count(
            t.slots.len(),
        ) - 1) % (t.slots.len() as int) + 1,
{
    lemma_steps_cursor(t, now, w, t.slots.len(), scan_count(t.slots.len()));
}


/// Once a session is removed, its id resolves to no endpoint until its slot
/// is handed out again: events already reported under that id cannot reach
/// a later peer.
pub proof fn lemma_removed_id_resolves_to_nothing(t: TableModel, k: (u8, u128, u16))
    requires
        t.wf(),
        t.peers.contains_key(k),
    ensures
        t.without_peer(k).addr_of(t.peers[k].id) is None,
{
    assert(peer_fits(t.peers[k], k, t.slots));
}

} // verus!
