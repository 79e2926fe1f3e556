use sailwind_online::config::Config;
use sailwind_online::dispatch::{
    decide_moor, load_identity_index, moor_boat_id, on_econ, on_trade, AdmissionError,
    AdmissionState, HelloDecision, HelloFields, IdentityLoadError, MessageLimiters, MoorDecision,
    GLOBAL_KEY, MAX_MOORING_NAME_BYTES, MOOR_NAME_TOO_LONG_REASON,
};
use sailwind_online::econ::{
    Ledger, LedgerStore, Market, MarketStore, MemMarketStore, MemStore, Trade, Txn,
};
use sailwind_online::ratelimit::{RateLimiter, SourceLimiter};
use sailwind_online::session::{token_hash, token_key};
use std::collections::HashMap;

fn trade(txn_id: u64, qty: i64, price: i64) -> Trade {
    Trade {
        txn_id,
        port_id: 10,
        item_id: 5,
        qty,
        unit_price: price,
    }
}

fn txn(id: u64, amount: i64, note: &str) -> Txn {
    Txn {
        txn_id: id,
        amount_gold: amount,
        kind: 0,
        note: note.to_string(),
    }
}

#[test]
fn throttled_trade_is_refused_with_current_state() {
    let mut market = Market::new(MemMarketStore::new());
    let mut limiter = RateLimiter::new(1000);
    let first = on_trade(&mut market, &mut limiter, 1, &trade(1, 30, 100), 0).unwrap();
    assert!(first.accepted);
    let refused = on_trade(&mut market, &mut limiter, 1, &trade(2, 5, 100), 10).unwrap();
    assert!(!refused.accepted);
    assert_eq!(refused.reason, "rate limited");
    assert_eq!((refused.stock, refused.price), (30, 100));
    assert_eq!(market.store().state(10, 5).unwrap(), (30, 100));
    assert_eq!(market.store().log().len(), 1);
}

#[test]
fn replayed_trade_skips_the_throttle() {
    let mut market = Market::new(MemMarketStore::new());
    let mut limiter = RateLimiter::new(1000);
    on_trade(&mut market, &mut limiter, 1, &trade(7, 40, 100), 0).unwrap();
    let replay = on_trade(&mut market, &mut limiter, 1, &trade(7, 999, 999), 5).unwrap();
    assert!(replay.accepted);
    assert_eq!((replay.stock, replay.price), (40, 100));
    // The replay did not charge the throttle: a new trade after the interval passes.
    let next = on_trade(&mut market, &mut limiter, 1, &trade(8, 1, 100), 1000).unwrap();
    assert!(next.accepted);
    assert_eq!(next.stock, 41);
}

#[test]
fn throttle_is_per_player() {
    let mut market = Market::new(MemMarketStore::new());
    let mut limiter = RateLimiter::new(1000);
    assert!(on_trade(&mut market, &mut limiter, 1, &trade(1, 3, 10), 0).unwrap().accepted);
    assert!(on_trade(&mut market, &mut limiter, 2, &trade(2, 3, 10), 0).unwrap().accepted);
    assert_eq!(market.store().state(10, 5).unwrap(), (6, 10));
}

#[test]
fn econ_note_over_limit_is_dropped_before_anything() {
    let mut ledger = Ledger::new(MemStore::new());
    let mut limiter = RateLimiter::new(1000);
    let r = on_econ(&mut ledger, &mut limiter, 1, &txn(1, 50, "abcdef"), 3, 0).unwrap();
    assert!(r.is_none());
    assert_eq!(ledger.store().balance(1).unwrap(), 0);
    // The throttle was not charged.
    let ok = on_econ(&mut ledger, &mut limiter, 1, &txn(2, 50, "abc"), 3, 0).unwrap();
    assert_eq!(ok.unwrap().new_balance, 50);
}

#[test]
fn econ_note_limit_counts_bytes() {
    let mut ledger = Ledger::new(MemStore::new());
    let mut limiter = RateLimiter::new(0);
    // Two characters, four bytes.
    let r = on_econ(&mut ledger, &mut limiter, 1, &txn(1, 5, "éé"), 3, 0).unwrap();
    assert!(r.is_none());
    let r = on_econ(&mut ledger, &mut limiter, 1, &txn(1, 5, "éé"), 4, 0).unwrap();
    assert!(r.unwrap().accepted);
}

#[test]
fn econ_throttled_new_txn_is_dropped_but_replay_answers() {
    let mut ledger = Ledger::new(MemStore::new());
    let mut limiter = RateLimiter::new(1000);
    let first = on_econ(&mut ledger, &mut limiter, 1, &txn(1, 100, ""), 64, 0)
        .unwrap()
        .unwrap();
    assert_eq!(first.new_balance, 100);
    let dropped = on_econ(&mut ledger, &mut limiter, 1, &txn(2, 100, ""), 64, 10).unwrap();
    assert!(dropped.is_none());
    let replay = on_econ(&mut ledger, &mut limiter, 1, &txn(1, 100, ""), 64, 10)
        .unwrap()
        .unwrap();
    assert!(replay.accepted);
    assert_eq!(replay.new_balance, 100);
    assert_eq!(ledger.store().balance(1).unwrap(), 100);
}

#[test]
fn moor_name_too_long_is_refused_before_throttle() {
    let mut limiter = RateLimiter::new(1000);
    assert_eq!(
        decide_moor(MAX_MOORING_NAME_BYTES + 1, 1023, &mut limiter, 9, 0),
        MoorDecision::NameTooLong
    );
    assert_eq!(
        decide_moor(MAX_MOORING_NAME_BYTES, 1023, &mut limiter, 9, 0),
        MoorDecision::Save
    );
    assert_eq!(decide_moor(10, 1023, &mut limiter, 9, 10), MoorDecision::RateLimited);
    assert_eq!(decide_moor(10, 1023, &mut limiter, 9, 1010), MoorDecision::Save);
    assert_eq!(MOOR_NAME_TOO_LONG_REASON, "mooring name exceeds server limit");
}

#[test]
fn moor_name_limit_follows_smaller_wire_cap() {
    let mut limiter = RateLimiter::new(0);
    assert_eq!(decide_moor(9, 8, &mut limiter, 1, 0), MoorDecision::NameTooLong);
    assert_eq!(decide_moor(8, 8, &mut limiter, 1, 0), MoorDecision::Save);
}

#[test]
fn moor_key_is_boat_or_owner() {
    assert_eq!(moor_boat_id(0, 7), 7);
    assert_eq!(moor_boat_id(5, 7), 5);
}

fn admission() -> AdmissionState {
    AdmissionState {
        hello: RateLimiter::new(100),
        source: SourceLimiter::new(0),
        reconnect: RateLimiter::new(0),
        new_session: RateLimiter::new(0),
        sessions: HashMap::new(),
        player_peers: HashMap::new(),
        identities: HashMap::new(),
    }
}

fn hello(version: u16, token: Option<&str>, name: Option<&str>) -> HelloFields {
    HelloFields {
        protocol_version: version,
        api_surface_hash: Some("surface".to_string()),
        token: token.map(|t| t.to_string()),
        display_name: name.map(|n| n.to_string()),
        game_build: None,
        mod_version: None,
    }
}

const IP: (u8, u128) = (4, 0x7f00_0001);

#[test]
fn hello_version_mismatch_names_both_versions() {
    let mut st = admission();
    let r = st.decide_hello(1, IP, &hello(2, Some("tok"), None), 0, 256);
    assert_eq!(
        r,
        HelloDecision::Reject("protocol version mismatch: client 2, server 1".to_string())
    );
}

#[test]
fn hello_missing_token_and_long_name_are_refused() {
    let mut st = admission();
    let r = st.decide_hello(1, IP, &hello(1, None, None), 0, 256);
    assert_eq!(r, HelloDecision::Reject("missing token".to_string()));
    let r = st.decide_hello(2, IP, &hello(1, Some("tok"), Some("abcdefgh")), 0, 7);
    assert_eq!(
        r,
        HelloDecision::Reject("display name exceeds maximum length (7 bytes)".to_string())
    );
}

#[test]
fn hello_throttle_drops_quietly() {
    let mut st = admission();
    let first = st.decide_hello(1, IP, &hello(1, Some("tok"), None), 0, 256);
    assert!(matches!(first, HelloDecision::Admit { .. }));
    assert_eq!(
        st.decide_hello(1, IP, &hello(1, Some("tok"), None), 50, 256),
        HelloDecision::Drop
    );
}

#[test]
fn hello_admit_then_resend_and_identity_change() {
    let mut st = admission();
    let r = st.decide_hello(1, IP, &hello(1, Some("tok"), None), 0, 256);
    assert_eq!(
        r,
        HelloDecision::Admit {
            identity_key: token_key("tok"),
            identity_hash: token_hash("tok"),
            name: "sailor".to_string(),
            known: None,
        }
    );
    assert_eq!(st.record_admission(1, token_key("tok"), 42, None, 0), Ok(None));
    assert_eq!(st.identities.get(&u128::from(token_key("tok"))), Some(&42));
    assert_eq!(
        st.decide_hello(1, IP, &hello(1, Some("tok"), Some("Ann")), 200, 256),
        HelloDecision::Resend { player_id: 42 }
    );
    assert_eq!(
        st.decide_hello(1, IP, &hello(1, Some("other"), None), 400, 256),
        HelloDecision::Reject("identity change requires a new connection".to_string())
    );
}

#[test]
fn reconnect_supersedes_previous_peer() {
    let mut st = admission();
    st.decide_hello(1, IP, &hello(1, Some("tok"), None), 0, 256);
    st.record_admission(1, token_key("tok"), 42, None, 0).unwrap();
    let r = st.decide_hello(2, IP, &hello(1, Some("tok"), Some("Ann")), 10, 256);
    assert_eq!(
        r,
        HelloDecision::Admit {
            identity_key: token_key("tok"),
            identity_hash: token_hash("tok"),
            name: "Ann".to_string(),
            known: Some(42),
        }
    );
    assert_eq!(st.record_admission(2, token_key("tok"), 42, Some(42), 10), Ok(Some(1)));
    assert!(!st.sessions.contains_key(&1));
    assert_eq!(st.sessions.get(&2), Some(&(42, token_key("tok"))));
    assert_eq!(st.player_peers.get(&42), Some(&2));
}

#[test]
fn admission_refuses_a_mismatched_player() {
    let mut st = admission();
    assert_eq!(
        st.record_admission(1, 77, 5, Some(6), 0),
        Err(AdmissionError::IdentityMismatch)
    );
    assert!(st.sessions.is_empty());
}

#[test]
fn busy_new_identity_throttle_is_process_wide() {
    let mut st = admission();
    st.new_session = RateLimiter::new(1000);
    let a = st.decide_hello(1, (4, 1), &hello(1, Some("a"), None), 0, 256);
    assert!(matches!(a, HelloDecision::Admit { .. }));
    let b = st.decide_hello(2, (4, 2), &hello(1, Some("b"), None), 10, 256);
    assert_eq!(b, HelloDecision::Reject("server busy; retry".to_string()));
    assert_eq!(GLOBAL_KEY, 0);
}

#[test]
fn source_throttle_counts_per_ip() {
    let mut st = admission();
    st.source = SourceLimiter::new(1000);
    let a = st.decide_hello(1, IP, &hello(1, Some("a"), None), 0, 256);
    assert!(matches!(a, HelloDecision::Admit { .. }));
    let b = st.decide_hello(2, IP, &hello(1, Some("b"), None), 10, 256);
    assert_eq!(b, HelloDecision::Reject("server busy; retry".to_string()));
    let c = st.decide_hello(3, (4, 9), &hello(1, Some("c"), None), 10, 256);
    assert!(matches!(c, HelloDecision::Admit { .. }));
}

#[test]
fn ending_a_session_frees_peer_and_player() {
    let mut st = admission();
    st.decide_hello(1, IP, &hello(1, Some("tok"), None), 0, 256);
    st.record_admission(1, token_key("tok"), 42, None, 0).unwrap();
    assert_eq!(st.end_session(1), Some(42));
    assert!(st.sessions.is_empty());
    assert!(st.player_peers.is_empty());
    assert_eq!(st.end_session(1), None);
    // The hello throttle was cleared with the session.
    assert!(matches!(
        st.decide_hello(1, IP, &hello(1, Some("tok"), None), 1, 256),
        HelloDecision::Admit { .. }
    ));
}

#[test]
fn clearing_a_player_resets_message_throttles() {
    let mut l = MessageLimiters {
        trade: RateLimiter::new(1000),
        client_state: RateLimiter::new(1000),
        chat: RateLimiter::new(1000),
        econ: RateLimiter::new(1000),
        moor: RateLimiter::new(1000),
    };
    assert!(l.chat.allow(3, 0));
    assert!(!l.chat.allow(3, 1));
    l.clear_player(3);
    assert!(l.chat.allow(3, 2));
}

fn row(hash: &str, player: i64) -> (String, i64) {
    (hash.to_string(), player)
}

#[test]
fn identity_index_reads_back_stored_hashes() {
    let rows = vec![row(&token_hash("tok"), 42), row("00000000000000fF", 7)];
    let index = load_identity_index(&rows, 10).unwrap();
    assert_eq!(index.len(), 2);
    assert_eq!(index.get(&u128::from(token_key("tok"))), Some(&42));
    assert_eq!(index.get(&(0xff + (1u128 << 64))), Some(&7));
    assert_eq!(index.get(&0xff), None);
}

#[test]
fn identity_index_refuses_bad_rows_in_order() {
    assert_eq!(
        load_identity_index(&[row("0123", 1)], 10),
        Err(IdentityLoadError::InvalidHashShape)
    );
    assert_eq!(
        load_identity_index(&[row("0123456789abcdeg", 1)], 10),
        Err(IdentityLoadError::InvalidHashShape)
    );
    assert_eq!(
        load_identity_index(&[row("0123456789abcdef", -1), row("x", 1)], 10),
        Err(IdentityLoadError::NegativePlayerId)
    );
    assert_eq!(
        load_identity_index(&[row("x", 1), row("0123456789abcdef", -1)], 10),
        Err(IdentityLoadError::InvalidHashShape)
    );
    assert_eq!(
        load_identity_index(&[row("0123456789abcdef", 1), row("0123456789abcdee", 2)], 1),
        Err(IdentityLoadError::TooManyPlayers)
    );
    assert!(load_identity_index(&[], 0).unwrap().is_empty());
}

#[test]
fn fresh_admission_state_uses_its_intervals() {
    let mut identities = HashMap::new();
    identities.insert(u128::from(token_key("tok")), 42u64);
    let mut st = AdmissionState::new(100, 0, 0, identities);
    let r = st.decide_hello(1, IP, &hello(1, Some("tok"), None), 0, 256);
    assert_eq!(
        r,
        HelloDecision::Admit {
            identity_key: token_key("tok"),
            identity_hash: token_hash("tok"),
            name: "sailor".to_string(),
            known: Some(42),
        }
    );
    assert_eq!(st.decide_hello(1, IP, &hello(1, Some("tok"), None), 99, 256), HelloDecision::Drop);
}

#[test]
fn message_limiters_follow_config() {
    let cfg = Config::default();
    let mut l = MessageLimiters::from_config(&cfg);
    assert!(l.chat.allow(1, 0));
    assert!(!l.chat.allow(1, i64::from(cfg.chat_min_interval_ms) - 1));
    assert!(l.chat.allow(1, i64::from(cfg.chat_min_interval_ms)));
    assert!(l.trade.allow(1, 0));
}

#[test]
fn identity_index_keeps_differently_cased_hashes_apart() {
    let rows = vec![row("aaaaaaaaaaaaaaaa", 1), row("AAAAAAAAAAAAAAAA", 2)];
    let index = load_identity_index(&rows, 10).unwrap();
    assert_eq!(index.len(), 2);
    assert_eq!(index.get(&0xaaaa_aaaa_aaaa_aaaa), Some(&1));
    assert_eq!(index.get(&(0xaaaa_aaaa_aaaa_aaaa + (0xffffu128 << 64))), Some(&2));
}
