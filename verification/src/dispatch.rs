//! The server's per-message decisions, apart from decoding and sending:
//! the throttled, idempotent trade and econ handlers and the mooring gate.
use vstd::arithmetic::div_mod::lemma_fundamental_div_mod_converse;
use vstd::prelude::*;

use crate::econ::{
    ledger_step, market_reject, market_step, stock_in, trade_record, txn_record, Ledger, LedgerAck,
    LedgerStore, Market, MarketAck, MarketStore, PlayerId, Trade, Txn,
};
use std::collections::HashMap;

use crate::config::{Config, MAX_PLAYER_ROWS};
use crate::contracts::PROTOCOL_VERSION;
use crate::ratelimit::{admits, last_of, source_last, RateLimiter, SourceIp, SourceLimiter};
use crate::session::{
    decimal, fnv1a, hello_string_error, hex16, identity_hex, push_decimal, token_key,
    validate_hello_string,
};
use crate::validate::string_within_limit;
use vstd::utf8::encode_utf8;

verus! {

broadcast use vstd::std_specs::hash::group_hash_axioms;

/// The reply reason of a trade refused by the per-player throttle.
pub open spec fn rate_limited_reason() -> Seq<char> {
    "rate limited"@
}

/// Handle a market trade from `player`: a replay of an already-committed
/// trade is answered from the record and never throttled; a new trade is
/// charged against the aggregate per-player throttle (so rotating the port
/// cannot raise throughput) and, when refused, answered with the current
/// state and "rate limited"; an admitted trade is applied (see
/// [`market_step`]).
pub fn on_trade<S: MarketStore>(
    market: &mut Market<S>,
    limiter: &mut RateLimiter,
    player: u64,
    t: &Trade,
    admission_ms: i64,
) -> (r: Result<MarketAck, S::Error>)
    ensures
        old(market).spec_store().infallible() ==> r is Ok,
        final(limiter).interval() == old(limiter).interval(),
        ({
            let s = old(market).spec_store().market_state();
            let recorded = trade_record(s.trades, t.txn_id) is Some;
            let refused = !recorded && !admits(
                old(limiter).interval(),
                last_of(old(limiter).entries(), player),
                admission_ms,
            );
            let after = final(market).spec_store().market_state();
            &&& r is Err ==> after == s
            &&& recorded ==> final(limiter).entries() == old(limiter).entries()
            &&& refused ==> after == s
            &&& (refused && r is Ok) ==> final(limiter).entries() == old(limiter).entries()
            &&& refused ==> (r matches Ok(ack) ==> ack@ == market_reject(
                *t,
                stock_in(s.stock, t.port_id, t.item_id).0,
                stock_in(s.stock, t.port_id, t.item_id).1,
                rate_limited_reason(),
            ))
            &&& !refused ==> (r matches Ok(ack) ==> (after, ack@) == market_step(s, *t))
            &&& (!recorded && !refused && r is Ok) ==> final(limiter).entries() == if old(limiter).interval() > 0 {
                old(limiter).entries().insert(player, admission_ms)
            } else {
                old(limiter).entries()
            }
        }),
{
    let recorded = match market.store().lookup_trade(t.txn_id) {
        Ok(o) => o.is_some(),
        Err(e) => return Err(e),
    };
    if !recorded && !limiter.allow(player, admission_ms) {
        let (stock, price) = match market.store().state(t.port_id, t.item_id) {
            Ok(v) => v,
            Err(e) => return Err(e),
        };
        return Ok(
            MarketAck {
                txn_id: t.txn_id,
                accepted: false,
                port_id: t.port_id,
                item_id: t.item_id,
                stock,
                price,
                reason: "rate limited".to_owned(),
            },
        );
    }
    market.apply(t)
}

/// Handle an econ transaction from `player`: a note longer than `max_len`
/// bytes is dropped first; a replay of an already-committed transaction is
/// answered from the record and never throttled; a new transaction refused
/// by the per-player throttle is dropped; an admitted one is applied (see
/// [`ledger_step`]). `Ok(None)` means dropped, with nothing changed.
pub fn on_econ<S: LedgerStore>(
    ledger: &mut Ledger<S>,
    limiter: &mut RateLimiter,
    player: PlayerId,
    txn: &Txn,
    max_len: usize,
    admission_ms: i64,
) -> (r: Result<Option<LedgerAck>, S::Error>)
    ensures
        old(ledger).spec_store().infallible() ==> r is Ok,
        final(limiter).interval() == old(limiter).interval(),
        ({
            let s = old(ledger).spec_store().ledger_state();
            let too_long = encode_utf8(txn.note@).len() > max_len;
            let recorded = txn_record(s.txns, txn.txn_id) is Some;
            let refused = !recorded && !admits(
                old(limiter).interval(),
                last_of(old(limiter).entries(), player),
                admission_ms,
            );
            let after = final(ledger).spec_store().ledger_state();
            &&& r is Err ==> after == s
            &&& too_long ==> (r matches Ok(None)) && after == s && final(limiter).entries()
                == old(limiter).entries()
            &&& recorded ==> final(limiter).entries() == old(limiter).entries()
            &&& (!too_long && refused) ==> after == s
            &&& (!too_long && refused && r is Ok) ==> (r matches Ok(None)) && final(limiter).entries() == old(limiter).entries()
            &&& (!too_long && !refused) ==> (r matches Ok(o) ==> o matches Some(ack) && (
            after, ack@) == ledger_step(s, player, txn@))
            &&& (!too_long && !recorded && !refused && r is Ok) ==> final(limiter).entries()
                == if old(limiter).interval() > 0 {
                old(limiter).entries().insert(player, admission_ms)
            } else {
                old(limiter).entries()
            }
        }),
{
    let note_ok = string_within_limit(txn.note.as_str(), max_len);
    if !note_ok {
        return Ok(None);
    }
    let recorded = match ledger.store().lookup_txn(txn.txn_id) {
        Ok(o) => o.is_some(),
        Err(e) => return Err(e),
    };
    if !recorded && !limiter.allow(player, admission_ms) {
        return Ok(None);
    }
    match ledger.apply(player, txn) {
        Ok(ack) => Ok(Some(ack)),
        Err(e) => Err(e),
    }
}

/// Largest UTF-8 mooring name, in bytes, that fits the mooring replies.
pub const MAX_MOORING_NAME_BYTES: usize = 835;

/// The reply reason of a mooring whose name is too long.
pub const MOOR_NAME_TOO_LONG_REASON: &'static str = "mooring name exceeds server limit";

/// What happens to a mooring request.
#[derive(Debug, Clone, Copy, PartialEq, Eq, Structural)]
pub enum MoorDecision {
    /// Rejected with [`MOOR_NAME_TOO_LONG_REASON`]; the throttle is not charged.
    NameTooLong,
    /// Dropped by the per-player throttle.
    RateLimited,
    /// Saved (upserted under its boat id) and acknowledged.
    Save,
}

/// The name limit of a mooring: the wire-string cap, but never above
/// [`MAX_MOORING_NAME_BYTES`].
pub open spec fn mooring_name_limit(max_wire: usize) -> usize {
    if max_wire < MAX_MOORING_NAME_BYTES {
        max_wire
    } else {
        MAX_MOORING_NAME_BYTES
    }
}

/// Decide a mooring request by `owner` whose name is `name_bytes` long: an
/// over-long name is refused before the throttle is charged; then the
/// per-player throttle decides between dropping and saving.
pub fn decide_moor(
    name_bytes: usize,
    max_wire: usize,
    limiter: &mut RateLimiter,
    owner: u64,
    now: i64,
) -> (r: MoorDecision)
    ensures
        final(limiter).interval() == old(limiter).interval(),
        name_bytes > mooring_name_limit(max_wire) ==> r == MoorDecision::NameTooLong && final(limiter).entries() == old(limiter).entries(),
        name_bytes <= mooring_name_limit(max_wire) ==> {
            let ok = admits(old(limiter).interval(), last_of(old(limiter).entries(), owner), now);
            &&& r == (if ok {
                MoorDecision::Save
            } else {
                MoorDecision::RateLimited
            })
            &&& final(limiter).entries() == if ok && old(limiter).interval() > 0 {
                old(limiter).entries().insert(owner, now)
            } else {
                old(limiter).entries()
            }
        },
{
    let limit = if max_wire < MAX_MOORING_NAME_BYTES {
        max_wire
    } else {
        MAX_MOORING_NAME_BYTES
    };
    if name_bytes > limit {
        return MoorDecision::NameTooLong;
    }
    if limiter.allow(owner, now) {
        MoorDecision::Save
    } else {
        MoorDecision::RateLimited
    }
}

/// The key a mooring is saved under: the boarded boat, or the owner's own
/// id when not aboard one.
pub fn moor_boat_id(aboard: u64, owner: u64) -> (r: u64)
    ensures
        r == if aboard != 0 {
            aboard
        } else {
            owner
        },
{
    if aboard != 0 {
        aboard
    } else {
        owner
    }
}


/// The fields of a `ClientHello` that admission reads.
#[derive(Debug, Clone)]
pub struct HelloFields {
    pub protocol_version: u16,
    pub api_surface_hash: Option<String>,
    pub token: Option<String>,
    pub display_name: Option<String>,
    pub game_build: Option<String>,
    pub mod_version: Option<String>,
}

/// What a hello is answered with.
#[derive(Debug, Clone, PartialEq, Eq)]
pub enum HelloDecision {
    /// Dropped by the per-peer hello throttle: no reply at all.
    Drop,
    /// Refused with this reason.
    Reject(String),
    /// The peer's established session repeats its hello: resend the accept.
    Resend { player_id: u64 },
    /// A new session may be admitted for this identity; `known` is the
    /// player the identity already maps to, if any. The database decides
    /// the rest (see [`AdmissionState::record_admission`]).
    Admit { identity_key: u64, identity_hash: String, name: String, known: Option<u64> },
}

/// The key of the process-wide new-identity throttle.
pub const GLOBAL_KEY: u64 = 0;

/// Session admission state: the throttles and the session and identity
/// indexes that hellos are decided against.
pub struct AdmissionState {
    /// Per-peer hello throttle.
    pub hello: RateLimiter,
    /// Per-source-IP session throttle.
    pub source: SourceLimiter,
    /// Per-player reconnect throttle for known identities.
    pub reconnect: RateLimiter,
    /// Process-wide throttle (one key, [`GLOBAL_KEY`]) for new identities.
    pub new_session: RateLimiter,
    /// Live sessions: peer to (player, identity key).
    pub sessions: HashMap<u32, (u64, u64)>,
    /// The peer each live player is connected through.
    pub player_peers: HashMap<u64, u32>,
    /// Persisted identities: the index key of the stored hash (see
    /// [`stored_identity_key`]) to player; a session's identity key looks
    /// itself up unchanged.
    pub identities: HashMap<u128, u64>,
}

/// The view of an optional string.
pub open spec fn opt_chars(o: Option<String>) -> Option<Seq<char>> {
    match o {
        Some(s) => Some(s@),
        None => None,
    }
}

/// The UTF-8 length of an optional string (0 when absent).
pub open spec fn opt_bytes(o: Option<String>) -> nat {
    match o {
        Some(s) => encode_utf8(s@).len(),
        None => 0,
    }
}

/// The reason a hello from another protocol version is refused with.
pub open spec fn version_mismatch_reason(v: u16) -> Seq<char> {
    "protocol version mismatch: client "@ + decimal(v as nat) + ", server "@ + decimal(
        PROTOCOL_VERSION as nat,
    )
}

/// The first reason, in check order, a hello's fields are refused for: the
/// protocol version, then the required API surface hash and token, then the
/// optional display name, game build and mod version.
pub open spec fn hello_refusal(h: HelloFields, max_len: usize) -> Option<Seq<char>> {
    if h.protocol_version != PROTOCOL_VERSION {
        Some(version_mismatch_reason(h.protocol_version))
    } else if hello_string_error(opt_chars(h.api_surface_hash), opt_bytes(h.api_surface_hash), "API surface hash"@, true, max_len) is Some {
        hello_string_error(opt_chars(h.api_surface_hash), opt_bytes(h.api_surface_hash), "API surface hash"@, true, max_len)
    } else if hello_string_error(opt_chars(h.token), opt_bytes(h.token), "token"@, true, max_len) is Some {
        hello_string_error(opt_chars(h.token), opt_bytes(h.token), "token"@, true, max_len)
    } else if hello_string_error(opt_chars(h.display_name), opt_bytes(h.display_name), "display name"@, false, max_len) is Some {
        hello_string_error(opt_chars(h.display_name), opt_bytes(h.display_name), "display name"@, false, max_len)
    } else if hello_string_error(opt_chars(h.game_build), opt_bytes(h.game_build), "game build"@, false, max_len) is Some {
        hello_string_error(opt_chars(h.game_build), opt_bytes(h.game_build), "game build"@, false, max_len)
    } else {
        hello_string_error(opt_chars(h.mod_version), opt_bytes(h.mod_version), "mod version"@, false, max_len)
    }
}

/// The identity key of a hello's token.
pub open spec fn hello_identity(h: HelloFields) -> u64 {
    fnv1a(encode_utf8(h.token.unwrap()@))
}

/// The display name a session takes: the hello's, or "sailor".
pub open spec fn hello_name(h: HelloFields) -> Seq<char> {
    match h.display_name {
        Some(s) => s@,
        None => "sailor"@,
    }
}

/// The reason a session whose hello changes identity is refused with.
pub open spec fn identity_change_reason() -> Seq<char> {
    "identity change requires a new connection"@
}

/// The reason a hello refused by an admission throttle is answered with.
pub open spec fn busy_reason() -> Seq<char> {
    "server busy; retry"@
}

/// The limiter entries after `allow` decided `ok` for `key` at `now`.
pub open spec fn charged<K>(entries: Map<K, i64>, interval: i64, ok: bool, key: K, now: i64) -> Map<K, i64> {
    if ok && interval > 0 {
        entries.insert(key, now)
    } else {
        entries
    }
}

fn opt_str(o: &Option<String>) -> (r: Option<&str>)
    ensures
        match r {
            Some(s) => o matches Some(t) && s@ == t@,
            None => o is None,
        },
{
    match o {
        Some(s) => Some(s.as_str()),
        None => None,
    }
}

fn check_field(value: &Option<String>, field: &str, required: bool, max_len: usize) -> (r: Option<String>)
    ensures
        match r {
            Some(m) => hello_string_error(opt_chars(*value), opt_bytes(*value), field@, required, max_len) == Some(m@),
            None => hello_string_error(opt_chars(*value), opt_bytes(*value), field@, required, max_len) is None,
        },
{
    match validate_hello_string(opt_str(value), field, required, max_len) {
        Ok(_) => None,
        Err(m) => Some(m),
    }
}

impl AdmissionState {
    /// Decide a hello from `peer` (source `src_ip`): the per-peer throttle
    /// first (a refused hello gets no reply), then the version and string
    /// checks, then an established session (resend, or refuse an identity
    /// change), then the per-source throttle and either the known player's
    /// reconnect throttle or the process-wide new-identity throttle. Only the
    /// hello throttle and the gates that were passed are charged; the
    /// session and identity indexes are left as they are.
    pub fn decide_hello(&mut self, peer: u32, src_ip: SourceIp, h: &HelloFields, admission_ms: i64, max_len: usize) -> (r: HelloDecision)
        ensures
            final(self).sessions@ == old(self).sessions@,
            final(self).player_peers@ == old(self).player_peers@,
            final(self).identities@ == old(self).identities@,
            final(self).hello.interval() == old(self).hello.interval(),
            final(self).source.interval() == old(self).source.interval(),
            final(self).reconnect.interval() == old(self).reconnect.interval(),
            final(self).new_session.interval() == old(self).new_session.interval(),
            ({
                let o = *old(self);
                let f = *final(self);
                let pass_hello = admits(o.hello.interval(), last_of(o.hello.entries(), peer as u64), admission_ms);
                let refusal = hello_refusal(*h, max_len);
                let id = hello_identity(*h);
                let established = o.sessions@.contains_key(peer);
                let pass_src = admits(o.source.interval(), source_last(o.source.entries(), src_ip), admission_ms);
                let known = o.identities@.contains_key(id as u128);
                let pid = o.identities@[id as u128];
                let pass_rc = admits(o.reconnect.interval(), last_of(o.reconnect.entries(), pid), admission_ms);
                let pass_g = admits(o.new_session.interval(), last_of(o.new_session.entries(), GLOBAL_KEY), admission_ms);
                let at_gates = pass_hello && refusal is None && !established;
                &&& f.hello.entries() == charged(o.hello.entries(), o.hello.interval(), pass_hello, peer as u64, admission_ms)
                &&& !pass_hello ==> r == HelloDecision::Drop
                &&& (pass_hello && refusal is Some) ==> (r matches HelloDecision::Reject(m) && m@ == refusal.unwrap())
                &&& (pass_hello && refusal is None && established) ==> (if o.sessions@[peer].1 == id {
                    r == HelloDecision::Resend { player_id: o.sessions@[peer].0 }
                } else {
                    (r matches HelloDecision::Reject(m) && m@ == identity_change_reason())
                })
                &&& f.source.entries() == if at_gates {
                    charged(o.source.entries(), o.source.interval(), pass_src, src_ip, admission_ms)
                } else {
                    o.source.entries()
                }
                &&& f.reconnect.entries() == if at_gates && pass_src && known {
                    charged(o.reconnect.entries(), o.reconnect.interval(), pass_rc, pid, admission_ms)
                } else {
                    o.reconnect.entries()
                }
                &&& f.new_session.entries() == if at_gates && pass_src && !known {
                    charged(o.new_session.entries(), o.new_session.interval(), pass_g, GLOBAL_KEY, admission_ms)
                } else {
                    o.new_session.entries()
                }
                &&& (at_gates && (!pass_src || (known && !pass_rc) || (!known && !pass_g))) ==> (r matches HelloDecision::Reject(m) && m@ == busy_reason())
                &&& (at_gates && pass_src && (if known { pass_rc } else { pass_g })) ==> (r matches HelloDecision::Admit { identity_key, identity_hash, name, known: k } && identity_key == id
                    && identity_hash@ == hex16(id) && name@ == hello_name(*h) && k == (if known { Some(pid) } else { None::<u64> }))
            }),
    {
        if !self.hello.allow(peer as u64, admission_ms) {
            return HelloDecision::Drop;
        }
        if h.protocol_version != PROTOCOL_VERSION {
            let mut m = String::from_str("protocol version mismatch: client ");
            push_decimal(&mut m, h.protocol_version as usize);
            m.append(", server ");
            push_decimal(&mut m, PROTOCOL_VERSION as usize);
            return HelloDecision::Reject(m);
        }
        if let Some(m) = check_field(&h.api_surface_hash, "API surface hash", true, max_len) {
            return HelloDecision::Reject(m);
        }
        if let Some(m) = check_field(&h.token, "token", true, max_len) {
            return HelloDecision::Reject(m);
        }
        if let Some(m) = check_field(&h.display_name, "display name", false, max_len) {
            return HelloDecision::Reject(m);
        }
        if let Some(m) = check_field(&h.game_build, "game build", false, max_len) {
            return HelloDecision::Reject(m);
        }
        if let Some(m) = check_field(&h.mod_version, "mod version", false, max_len) {
            return HelloDecision::Reject(m);
        }
        let token = match &h.token {
            Some(t) => t.as_str(),
            None => return HelloDecision::Drop,
        };
        let id = token_key(token);
        match self.sessions.get(&peer) {
            Some(entry) => {
                let (player_id, key) = *entry;
                if key == id {
                    return HelloDecision::Resend { player_id };
                } else {
                    return HelloDecision::Reject(String::from_str("identity change requires a new connection"));
                }
            },
            None => {},
        }
        if !self.source.allow(src_ip, admission_ms) {
            return HelloDecision::Reject(String::from_str("server busy; retry"));
        }
        let known = match self.identities.get(&(id as u128)) {
            Some(p) => Some(*p),
            None => None,
        };
        let pass = match known {
            Some(p) => self.reconnect.allow(p, admission_ms),
            None => self.new_session.allow(GLOBAL_KEY, admission_ms),
        };
        if !pass {
            return HelloDecision::Reject(String::from_str("server busy; retry"));
        }
        let name = match &h.display_name {
            Some(n) => n.clone(),
            None => String::from_str("sailor"),
        };
        HelloDecision::Admit { identity_key: id, identity_hash: identity_hex(id), name, known }
    }
}


impl AdmissionState {
    /// Fresh admission state over the loaded identity index: the hello and
    /// reconnect throttles at `hello_ms`, the per-source throttle at
    /// `source_ms`, the new-identity throttle at `new_session_ms`, and no
    /// sessions.
    pub fn new(hello_ms: i64, source_ms: i64, new_session_ms: i64, identities: HashMap<u128, u64>) -> (r: AdmissionState)
        ensures
            r.hello.interval() == hello_ms && r.hello.entries() == Map::<u64, i64>::empty(),
            r.reconnect.interval() == hello_ms && r.reconnect.entries() == Map::<u64, i64>::empty(),
            r.source.interval() == source_ms && r.source.entries() == Map::<SourceIp, i64>::empty(),
            r.new_session.interval() == new_session_ms && r.new_session.entries() == Map::<
                u64,
                i64,
            >::empty(),
            r.sessions@ == Map::<u32, (u64, u64)>::empty(),
            r.player_peers@ == Map::<u64, u32>::empty(),
            r.identities@ == identities@,
    {
        AdmissionState {
            hello: RateLimiter::new(hello_ms),
            source: SourceLimiter::new(source_ms),
            reconnect: RateLimiter::new(hello_ms),
            new_session: RateLimiter::new(new_session_ms),
            sessions: HashMap::new(),
            player_peers: HashMap::new(),
            identities,
        }
    }
}

/// Why recording an admitted session failed.
#[derive(Debug, Clone, Copy, PartialEq, Eq, Structural)]
pub enum AdmissionError {
    /// The database admitted another player than the identity index names.
    IdentityMismatch,
    /// The identity index is at its hard ceiling of `MAX_PLAYER_ROWS`.
    IdentityIndexFull,
    /// The peer already owns a session.
    PeerHasSession,
    /// The player already owns a session on another peer.
    PlayerHasSession,
}

/// The peer that must be evicted when `player` connects through `peer`:
/// its current peer, if it is another one.
pub open spec fn superseded_peer(player_peers: Map<u64, u32>, player: u64, peer: u32) -> Option<u32> {
    if player_peers.contains_key(player) && player_peers[player] != peer {
        Some(player_peers[player])
    } else {
        None
    }
}

impl AdmissionState {
    /// Record the database's admission of `player_id` for the identity
    /// `identity_key` on `peer` (after [`AdmissionState::decide_hello`]
    /// answered `Admit` with `known`). A new identity is filed in the index
    /// and charged against the reconnect throttle; a previous session of the
    /// same player on another peer is dropped (its hello throttle cleared)
    /// and that peer returned for eviction; the new session is registered.
    pub fn record_admission(&mut self, peer: u32, identity_key: u64, player_id: u64, known: Option<u64>, admission_ms: i64) -> (r: Result<Option<u32>, AdmissionError>)
        ensures
            final(self).hello.interval() == old(self).hello.interval(),
            final(self).reconnect.interval() == old(self).reconnect.interval(),
            final(self).source == old(self).source,
            final(self).new_session == old(self).new_session,
            ({
                let o = *old(self);
                let f = *final(self);
                let mismatch = known matches Some(e) && e != player_id;
                let full = known is None && o.identities@.len() >= MAX_PLAYER_ROWS;
                let sup = superseded_peer(o.player_peers@, player_id, peer);
                let sessions1 = match sup {
                    Some(pp) => o.sessions@.remove(pp),
                    None => o.sessions@,
                };
                let peers1 = match sup {
                    Some(pp) => o.player_peers@.remove(player_id),
                    None => o.player_peers@,
                };
                &&& mismatch ==> r == Err::<Option<u32>, AdmissionError>(AdmissionError::IdentityMismatch) && f.identities@ == o.identities@
                    && f.sessions@ == o.sessions@ && f.player_peers@ == o.player_peers@ && f.hello.entries() == o.hello.entries()
                    && f.reconnect.entries() == o.reconnect.entries()
                &&& (!mismatch && full) ==> r == Err::<Option<u32>, AdmissionError>(AdmissionError::IdentityIndexFull) && f.identities@ == o.identities@
                    && f.sessions@ == o.sessions@ && f.player_peers@ == o.player_peers@ && f.hello.entries() == o.hello.entries()
                    && f.reconnect.entries() == o.reconnect.entries()
                &&& (!mismatch && !full) ==> {
                    &&& f.identities@ == if known is None {
                        o.identities@.insert(identity_key as u128, player_id)
                    } else {
                        o.identities@
                    }
                    &&& f.reconnect.entries() == if known is None && o.reconnect.interval() > 0
                        && admits(o.reconnect.interval(), last_of(o.reconnect.entries(), player_id), admission_ms) {
                        o.reconnect.entries().insert(player_id, admission_ms)
                    } else {
                        o.reconnect.entries()
                    }
                    &&& f.hello.entries() == match sup {
                        Some(pp) => o.hello.entries().remove(pp as u64),
                        None => o.hello.entries(),
                    }
                    &&& if sessions1.contains_key(peer) {
                        r == Err::<Option<u32>, AdmissionError>(AdmissionError::PeerHasSession) && f.sessions@ == sessions1 && f.player_peers@ == peers1
                    } else if peers1.contains_key(player_id) {
                        r == Err::<Option<u32>, AdmissionError>(AdmissionError::PlayerHasSession) && f.sessions@ == sessions1 && f.player_peers@ == peers1
                    } else {
                        &&& r == Ok::<Option<u32>, AdmissionError>(sup)
                        &&& f.sessions@ == sessions1.insert(peer, (player_id, identity_key))
                        &&& f.player_peers@ == peers1.insert(player_id, peer)
                    }
                }
            }),
    {
        match known {
            Some(e) => {
                if player_id != e {
                    return Err(AdmissionError::IdentityMismatch);
                }
            },
            None => {
                if self.identities.len() >= MAX_PLAYER_ROWS as usize {
                    return Err(AdmissionError::IdentityIndexFull);
                }
                self.identities.insert(identity_key as u128, player_id);
                let _ = self.reconnect.allow(player_id, admission_ms);
            },
        }
        let sup = match self.player_peers.get(&player_id) {
            Some(pp) => if *pp != peer {
                Some(*pp)
            } else {
                None
            },
            None => None,
        };
        if let Some(pp) = sup {
            self.sessions.remove(&pp);
            self.player_peers.remove(&player_id);
            self.hello.clear(pp as u64);
        }
        if self.sessions.contains_key(&peer) {
            return Err(AdmissionError::PeerHasSession);
        }
        if self.player_peers.contains_key(&player_id) {
            return Err(AdmissionError::PlayerHasSession);
        }
        self.sessions.insert(peer, (player_id, identity_key));
        self.player_peers.insert(player_id, peer);
        Ok(sup)
    }

    /// Drop `peer`'s hello throttle and its session, if any; the player whose
    /// session ended.
    pub fn end_session(&mut self, peer: u32) -> (r: Option<u64>)
        ensures
            final(self).hello.interval() == old(self).hello.interval(),
            final(self).hello.entries() == old(self).hello.entries().remove(peer as u64),
            final(self).source == old(self).source,
            final(self).reconnect == old(self).reconnect,
            final(self).new_session == old(self).new_session,
            final(self).identities@ == old(self).identities@,
            final(self).sessions@ == old(self).sessions@.remove(peer),
            match r {
                None => !old(self).sessions@.contains_key(peer) && final(self).player_peers@ == old(self).player_peers@,
                Some(p) => {
                    &&& old(self).sessions@.contains_key(peer)
                    &&& p == old(self).sessions@[peer].0
                    &&& final(self).player_peers@ == if old(self).player_peers@.contains_key(p) && old(self).player_peers@[p] == peer {
                        old(self).player_peers@.remove(p)
                    } else {
                        old(self).player_peers@
                    }
                },
            },
    {
        self.hello.clear(peer as u64);
        let player = match self.sessions.remove(&peer) {
            Some(s) => s.0,
            None => return None,
        };
        let owns = match self.player_peers.get(&player) {
            Some(pp) => *pp == peer,
            None => false,
        };
        if owns {
            self.player_peers.remove(&player);
        }
        Some(player)
    }
}

/// The per-player message throttles of live sessions.
pub struct MessageLimiters {
    pub trade: RateLimiter,
    pub client_state: RateLimiter,
    pub chat: RateLimiter,
    pub econ: RateLimiter,
    pub moor: RateLimiter,
}

impl MessageLimiters {
    /// The message throttles at the configured intervals, all empty.
    pub fn from_config(cfg: &Config) -> (r: MessageLimiters)
        ensures
            r.trade.interval() == cfg.trade_min_interval_ms,
            r.client_state.interval() == cfg.client_state_min_interval_ms,
            r.chat.interval() == cfg.chat_min_interval_ms,
            r.econ.interval() == cfg.econ_min_interval_ms,
            r.moor.interval() == cfg.moor_min_interval_ms,
            r.trade.entries() == Map::<u64, i64>::empty(),
            r.client_state.entries() == Map::<u64, i64>::empty(),
            r.chat.entries() == Map::<u64, i64>::empty(),
            r.econ.entries() == Map::<u64, i64>::empty(),
            r.moor.entries() == Map::<u64, i64>::empty(),
    {
        MessageLimiters {
            trade: RateLimiter::new(cfg.trade_min_interval_ms as i64),
            client_state: RateLimiter::new(cfg.client_state_min_interval_ms as i64),
            chat: RateLimiter::new(cfg.chat_min_interval_ms as i64),
            econ: RateLimiter::new(cfg.econ_min_interval_ms as i64),
            moor: RateLimiter::new(cfg.moor_min_interval_ms as i64),
        }
    }


    /// Drop every session-scoped throttle of `player` on disconnect.
    pub fn clear_player(&mut self, player: u64)
        ensures
            final(self).trade.entries() == old(self).trade.entries().remove(player),
            final(self).client_state.entries() == old(self).client_state.entries().remove(player),
            final(self).chat.entries() == old(self).chat.entries().remove(player),
            final(self).econ.entries() == old(self).econ.entries().remove(player),
            final(self).moor.entries() == old(self).moor.entries().remove(player),
            final(self).trade.interval() == old(self).trade.interval(),
            final(self).client_state.interval() == old(self).client_state.interval(),
            final(self).chat.interval() == old(self).chat.interval(),
            final(self).econ.interval() == old(self).econ.interval(),
            final(self).moor.interval() == old(self).moor.interval(),
    {
        self.trade.clear(player);
        self.client_state.clear(player);
        self.chat.clear(player);
        self.econ.clear(player);
        self.moor.clear(player);
    }
}

/// Why the persisted identity index could not be loaded.
#[derive(Debug, Clone, Copy, PartialEq, Eq, Structural)]
pub enum IdentityLoadError {
    /// More rows than the hard identity ceiling.
    TooManyPlayers,
    /// A stored identity hash is not 16 hexadecimal digits.
    InvalidHashShape,
    /// A stored player id is negative.
    NegativePlayerId,
}

/// An ASCII hexadecimal digit, in either case.
pub open spec fn hex_byte(b: u8) -> bool {
    (48 <= b <= 57) || (97 <= b <= 102) || (65 <= b <= 70)
}

/// The value of a hexadecimal digit.
pub open spec fn hex_byte_value(b: u8) -> int {
    if b <= 57 {
        b - 48
    } else if b >= 97 {
        b - 97 + 10
    } else {
        b - 65 + 10
    }
}

/// The value of a string of hexadecimal digits, most significant first.
pub open spec fn hex_value(bs: Seq<u8>) -> int
    decreases bs.len(),
{
    if bs.len() == 0 {
        0
    } else {
        hex_value(bs.drop_last()) * 16 + hex_byte_value(bs.last())
    }
}

/// A stored identity hash: exactly 16 bytes, each a hexadecimal digit.
pub open spec fn identity_hash_shape(bs: Seq<u8>) -> bool {
    bs.len() == 16 && forall|i: int| 0 <= i < 16 ==> hex_byte(#[trigger] bs[i])
}

pub open spec fn pow16(n: nat) -> int
    decreases n,
{
    if n == 0 {
        1
    } else {
        16 * pow16((n - 1) as nat)
    }
}

pub open spec fn pow2(n: nat) -> int
    decreases n,
{
    if n == 0 {
        1
    } else {
        2 * pow2((n - 1) as nat)
    }
}

/// An upper-case hexadecimal letter.
pub open spec fn upper_hex_byte(b: u8) -> bool {
    65 <= b <= 70
}

/// One bit per digit, most significant first: set where the digit is an
/// upper-case letter.
pub open spec fn upper_mask(bs: Seq<u8>) -> int
    decreases bs.len(),
{
    if bs.len() == 0 {
        0
    } else {
        upper_mask(bs.drop_last()) * 2 + if upper_hex_byte(bs.last()) {
            1int
        } else {
            0int
        }
    }
}

/// The index key of a stored identity hash: the digits' value, and above it
/// which digits are upper-case letters, so that each stored string has a
/// key of its own; a hash written the way sessions write them (lower case)
/// keys as its value.
pub open spec fn stored_identity_key(bs: Seq<u8>) -> int {
    hex_value(bs) + upper_mask(bs) * 0x1_0000_0000_0000_0000
}

proof fn lemma_hex_bounds(bs: Seq<u8>)
    requires
        forall|i: int| 0 <= i < bs.len() ==> hex_byte(#[trigger] bs[i]),
    ensures
        0 <= hex_value(bs) < pow16(bs.len()),
        0 <= upper_mask(bs) < pow2(bs.len()),
    decreases bs.len(),
{
    if bs.len() > 0 {
        let d = bs.drop_last();
        assert(forall|i: int| 0 <= i < d.len() ==> d[i] == bs[i]);
        lemma_hex_bounds(d);
        assert(hex_byte(bs[bs.len() - 1]));
    }
}

/// Two digit strings of one length with equal values and equal case masks
/// are the same string.
proof fn lemma_hex_digits_determined(a: Seq<u8>, b: Seq<u8>)
    requires
        a.len() == b.len(),
        forall|i: int| 0 <= i < a.len() ==> hex_byte(#[trigger] a[i]),
        forall|i: int| 0 <= i < b.len() ==> hex_byte(#[trigger] b[i]),
        hex_value(a) == hex_value(b),
        upper_mask(a) == upper_mask(b),
    ensures
        a == b,
    decreases a.len(),
{
    if a.len() > 0 {
        let a0 = a.drop_last();
        let b0 = b.drop_last();
        let n = a.len() - 1;
        assert(forall|i: int| 0 <= i < a0.len() ==> a0[i] == a[i]);
        assert(forall|i: int| 0 <= i < b0.len() ==> b0[i] == b[i]);
        assert(hex_byte(a[n]) && hex_byte(b[n]));
        let da = hex_byte_value(a.last());
        let db = hex_byte_value(b.last());
        lemma_fundamental_div_mod_converse(hex_value(a), 16, hex_value(a0), da);
        lemma_fundamental_div_mod_converse(hex_value(b), 16, hex_value(b0), db);
        let ua: int = if upper_hex_byte(a.last()) {
            1
        } else {
            0
        };
        let ub: int = if upper_hex_byte(b.last()) {
            1
        } else {
            0
        };
        lemma_fundamental_div_mod_converse(upper_mask(a), 2, upper_mask(a0), ua);
        lemma_fundamental_div_mod_converse(upper_mask(b), 2, upper_mask(b0), ub);
        lemma_hex_digits_determined(a0, b0);
        assert(a.last() == b.last());
        assert(a =~= a0.push(a.last()));
        assert(b =~= b0.push(b.last()));
    }
}

/// Distinct stored identity hashes have distinct index keys: the index
/// keeps every stored string apart, as a map by the exact string would.
pub proof fn lemma_stored_identity_key_injective(a: Seq<u8>, b: Seq<u8>)
    requires
        identity_hash_shape(a),
        identity_hash_shape(b),
        stored_identity_key(a) == stored_identity_key(b),
    ensures
        a == b,
{
    lemma_hex_bounds(a);
    lemma_hex_bounds(b);
    assert(pow16(16) == 0x1_0000_0000_0000_0000) by {
        reveal_with_fuel(pow16, 17);
    }
    let k = stored_identity_key(a);
    lemma_fundamental_div_mod_converse(k, 0x1_0000_0000_0000_0000, upper_mask(a), hex_value(a));
    lemma_fundamental_div_mod_converse(k, 0x1_0000_0000_0000_0000, upper_mask(b), hex_value(b));
    lemma_hex_digits_determined(a, b);
}

/// The index key a stored hash names, if it has the right shape.
fn parse_identity_hash(bs: &[u8]) -> (r: Option<u128>)
    ensures
        match r {
            Some(k) => identity_hash_shape(bs@) && k == stored_identity_key(bs@),
            None => !identity_hash_shape(bs@),
        },
{
    if bs.len() != 16 {
        return None;
    }
    let mut acc: u128 = 0;
    let mut mask: u128 = 0;
    let mut i: usize = 0;
    while i < 16
        invariant
            bs@.len() == 16,
            i <= 16,
            acc == hex_value(bs@.take(i as int)),
            mask == upper_mask(bs@.take(i as int)),
            acc < pow16(i as nat),
            mask < pow2(i as nat),
            forall|j: int| 0 <= j < i ==> hex_byte(#[trigger] bs@[j]),
        decreases 16 - i,
    {
        let b = bs[i];
        let (d, u): (u128, u128) = if 48 <= b && b <= 57 {
            ((b - 48) as u128, 0)
        } else if 97 <= b && b <= 102 {
            ((b - 97 + 10) as u128, 0)
        } else if 65 <= b && b <= 70 {
            ((b - 65 + 10) as u128, 1)
        } else {
            proof {
                assert(!hex_byte(bs@[i as int]));
            }
            return None;
        };
        proof {
            assert(pow16(i as nat) <= pow16(16) && pow2(i as nat) <= pow2(16)) by {
                reveal_with_fuel(pow16, 17);
                reveal_with_fuel(pow2, 17);
            }
            assert(pow16(16) == 0x1_0000_0000_0000_0000 && pow2(16) == 0x10000) by {
                reveal_with_fuel(pow16, 17);
                reveal_with_fuel(pow2, 17);
            }
            let t = bs@.take(i + 1);
            assert(t.drop_last() =~= bs@.take(i as int));
            assert(t.last() == b);
        }
        acc = acc * 16 + d;
        mask = mask * 2 + u;
        i = i + 1;
    }
    proof {
        assert(bs@.take(16) =~= bs@);
        assert(pow16(16) == 0x1_0000_0000_0000_0000 && pow2(16) == 0x10000) by {
            reveal_with_fuel(pow16, 17);
            reveal_with_fuel(pow2, 17);
        }
    }
    Some(acc + mask * 0x1_0000_0000_0000_0000)
}

/// The first reason, in row order, a persisted identity row is refused:
/// the hash shape, then the sign of the player id.
pub open spec fn first_identity_error(rows: Seq<(Seq<u8>, i64)>) -> Option<IdentityLoadError>
    decreases rows.len(),
{
    if rows.len() == 0 {
        None
    } else if first_identity_error(rows.drop_last()) is Some {
        first_identity_error(rows.drop_last())
    } else if !identity_hash_shape(rows.last().0) {
        Some(IdentityLoadError::InvalidHashShape)
    } else if rows.last().1 < 0 {
        Some(IdentityLoadError::NegativePlayerId)
    } else {
        None
    }
}

/// The identity index the rows build: each row's key to its player, a later
/// row replacing an earlier one with the same key.
pub open spec fn identity_index_of(rows: Seq<(Seq<u8>, i64)>) -> Map<u128, u64>
    decreases rows.len(),
{
    if rows.len() == 0 {
        Map::empty()
    } else {
        identity_index_of(rows.drop_last()).insert(
            stored_identity_key(rows.last().0) as u128,
            rows.last().1 as u64,
        )
    }
}

/// The rows as stored bytes and ids.
pub open spec fn identity_rows(rows: Seq<(String, i64)>) -> Seq<(Seq<u8>, i64)> {
    rows.map_values(|r: (String, i64)| (encode_utf8(r.0@), r.1))
}

/// Load the persisted identity index from its rows (identity hash, player
/// id): more than `max_players` rows is refused outright; otherwise the
/// first malformed row, in order, is refused (a hash that is not 16
/// hexadecimal digits, or a negative
/// player id); else every row is filed under its own key (see
/// [`stored_identity_key`]).
pub fn load_identity_index(rows: &[(String, i64)], max_players: u32) -> (r: Result<HashMap<u128, u64>, IdentityLoadError>)
    ensures
        rows@.len() > max_players ==> r == Err::<HashMap<u128, u64>, IdentityLoadError>(IdentityLoadError::TooManyPlayers),
        rows@.len() <= max_players ==> match first_identity_error(identity_rows(rows@)) {
            Some(e) => r == Err::<HashMap<u128, u64>, IdentityLoadError>(e),
            None => r matches Ok(m) && m@ == identity_index_of(identity_rows(rows@)),
        },
{
    if rows.len() > max_players as usize {
        return Err(IdentityLoadError::TooManyPlayers);
    }
    let ghost all = identity_rows(rows@);
    let mut index: HashMap<u128, u64> = HashMap::new();
    let mut i: usize = 0;
    while i < rows.len()
        invariant
            i <= rows@.len(),
            rows@.len() <= max_players,
            all == identity_rows(rows@),
            first_identity_error(all.take(i as int)) is None,
            index@ == identity_index_of(all.take(i as int)),
        decreases rows@.len() - i,
    {
        let bytes = rows[i].0.as_str().as_bytes();
        let player = rows[i].1;
        proof {
            let t = all.take(i + 1);
            assert(t.drop_last() =~= all.take(i as int));
            assert(t.last() == all[i as int]);
            assert(all[i as int] == (encode_utf8(rows@[i as int].0@), rows@[i as int].1));
        }
        let key = match parse_identity_hash(bytes) {
            Some(k) => k,
            None => {
                proof {
                    assert(first_identity_error(all.take(i + 1)) == Some(IdentityLoadError::InvalidHashShape));
                    lemma_first_identity_error_prefix(all, i as int + 1);
                }
                return Err(IdentityLoadError::InvalidHashShape);
            },
        };
        if player < 0 {
            proof {
                assert(first_identity_error(all.take(i + 1)) == Some(IdentityLoadError::NegativePlayerId));
                lemma_first_identity_error_prefix(all, i as int + 1);
            }
            return Err(IdentityLoadError::NegativePlayerId);
        }
        index.insert(key, player as u64);
        i = i + 1;
    }
    proof {
        assert(all.take(rows@.len() as int) =~= all);
    }
    Ok(index)
}

/// Once a prefix of the rows has an error, the whole has the same one.
proof fn lemma_first_identity_error_prefix(rows: Seq<(Seq<u8>, i64)>, n: int)
    requires
        0 <= n <= rows.len(),
        first_identity_error(rows.take(n)) is Some,
    ensures
        first_identity_error(rows) == first_identity_error(rows.take(n)),
    decreases rows.len() - n,
{
    if n < rows.len() {
        let longer = rows.take(n + 1);
        assert(longer.drop_last() =~= rows.take(n));
        lemma_first_identity_error_prefix(rows, n + 1);
    } else {
        assert(rows.take(n) =~= rows);
    }
}

} // verus!
