//! The authoritative gold ledger and the shared port market.
//!
//! [`Ledger::apply`] is the single write path for balances: idempotent by
//! `txn_id`, never drives a balance below zero, and appends every accepted
//! transaction to the store's log. [`Market::apply`] is its sibling for the
//! shared per-port stock/price state, with the same guarantees.
//!
//! Storage sits behind [`LedgerStore`] / [`MarketStore`]; each store exposes an
//! abstract state (a [`LedgerState`] or [`MarketState`]) that the contracts of
//! the policy layer are written against.
use std::collections::HashMap;
use vstd::prelude::*;

verus! {

broadcast use vstd::std_specs::hash::group_hash_axioms;

/// Player identifier (matches the persisted `players.id`).
pub type PlayerId = u64;

/// Reason reported when a transaction id was already committed.
pub open spec fn reason_duplicate() -> Seq<char> {
    "duplicate (idempotent replay)"@
}

/// Reason reported when a debit exceeds the balance.
pub open spec fn reason_insufficient_funds() -> Seq<char> {
    "insufficient funds"@
}

/// Reason reported when the balance arithmetic leaves the `i64` range.
pub open spec fn reason_amount_out_of_range() -> Seq<char> {
    "amount out of range"@
}

/// A balance-changing transaction. `amount_gold` is a signed delta.
#[derive(Debug, Clone, PartialEq, Eq)]
pub struct Txn {
    pub txn_id: u64,
    pub amount_gold: i64,
    pub kind: u8,
    pub note: String,
}

/// The mathematical content of a [`Txn`].
pub struct TxnView {
    pub txn_id: u64,
    pub amount_gold: i64,
    pub kind: u8,
    pub note: Seq<char>,
}

impl View for Txn {
    type V = TxnView;

    open spec fn view(&self) -> TxnView {
        TxnView {
            txn_id: self.txn_id,
            amount_gold: self.amount_gold,
            kind: self.kind,
            note: self.note@,
        }
    }
}

/// The result of applying (or replaying) a transaction.
#[derive(Debug, Clone, PartialEq, Eq)]
pub struct LedgerAck {
    pub txn_id: u64,
    pub accepted: bool,
    pub new_balance: i64,
    pub reason: String,
}

/// The mathematical content of a [`LedgerAck`].
pub struct LedgerAckView {
    pub txn_id: u64,
    pub accepted: bool,
    pub new_balance: i64,
    pub reason: Seq<char>,
}

impl View for LedgerAck {
    type V = LedgerAckView;

    open spec fn view(&self) -> LedgerAckView {
        LedgerAckView {
            txn_id: self.txn_id,
            accepted: self.accepted,
            new_balance: self.new_balance,
            reason: self.reason@,
        }
    }
}

/// A previously committed transaction, returned on idempotent replay.
#[derive(Debug, Clone, Copy, PartialEq, Eq)]
pub struct RecordedTxn {
    pub player: PlayerId,
    pub new_balance: i64,
}

/// The abstract state of a ledger store: balances (absent means 0), the
/// committed transactions by id, and the append-only commit log.
pub struct LedgerState {
    pub balances: Map<PlayerId, i64>,
    pub txns: Map<u64, RecordedTxn>,
    pub log: Seq<(PlayerId, TxnView, i64)>,
}

/// The empty ledger state.
pub open spec fn empty_ledger_state() -> LedgerState {
    LedgerState { balances: Map::empty(), txns: Map::empty(), log: Seq::empty() }
}

/// Balance of `player` in `balances`, 0 when the player has none yet.
pub open spec fn balance_in(balances: Map<PlayerId, i64>, player: PlayerId) -> i64 {
    if balances.contains_key(player) {
        balances[player]
    } else {
        0
    }
}

/// The record of `txn_id` in `txns`, if any.
pub open spec fn txn_record(txns: Map<u64, RecordedTxn>, txn_id: u64) -> Option<RecordedTxn> {
    if txns.contains_key(txn_id) {
        Some(txns[txn_id])
    } else {
        None
    }
}

/// The state after committing `txn` for `player` with `new_balance`.
pub open spec fn ledger_commit(
    s: LedgerState,
    player: PlayerId,
    txn: TxnView,
    new_balance: i64,
) -> LedgerState {
    LedgerState {
        balances: s.balances.insert(player, new_balance),
        txns: s.txns.insert(txn.txn_id, RecordedTxn { player, new_balance }),
        log: s.log.push((player, txn, new_balance)),
    }
}

/// What applying `txn` to `player` does to a ledger in state `s`: the new
/// state and the acknowledgement.
pub open spec fn ledger_step(s: LedgerState, player: PlayerId, txn: TxnView) -> (
    LedgerState,
    LedgerAckView,
) {
    if s.txns.contains_key(txn.txn_id) {
        (
            s,
            LedgerAckView {
                txn_id: txn.txn_id,
                accepted: true,
                new_balance: s.txns[txn.txn_id].new_balance,
                reason: reason_duplicate(),
            },
        )
    } else {
        let balance = balance_in(s.balances, player);
        let sum = balance + txn.amount_gold;
        if sum < i64::MIN || sum > i64::MAX {
            (
                s,
                LedgerAckView {
                    txn_id: txn.txn_id,
                    accepted: false,
                    new_balance: balance,
                    reason: reason_amount_out_of_range(),
                },
            )
        } else if sum < 0 {
            (
                s,
                LedgerAckView {
                    txn_id: txn.txn_id,
                    accepted: false,
                    new_balance: balance,
                    reason: reason_insufficient_funds(),
                },
            )
        } else {
            (
                ledger_commit(s, player, txn, sum as i64),
                LedgerAckView {
                    txn_id: txn.txn_id,
                    accepted: true,
                    new_balance: sum as i64,
                    reason: Seq::empty(),
                },
            )
        }
    }
}

/// Replaying an accepted transaction id is idempotent: the second
/// application, whatever its player and payload, leaves the state as the first
/// one left it and reports the same balance.
pub proof fn lemma_ledger_replay_is_idempotent(
    s: LedgerState,
    player: PlayerId,
    txn: TxnView,
    replay_player: PlayerId,
    replay: TxnView,
)
    requires
        ledger_step(s, player, txn).1.accepted,
        replay.txn_id == txn.txn_id,
    ensures
        ({
            let (s1, a1) = ledger_step(s, player, txn);
            let (s2, a2) = ledger_step(s1, replay_player, replay);
            &&& s2 == s1
            &&& a2.accepted
            &&& a2.new_balance == a1.new_balance
            &&& a2.reason == reason_duplicate()
        }),
{
}

/// Balances never go negative: a step from a state whose balances are all
/// non-negative leads to a state whose balances are all non-negative.
pub proof fn lemma_ledger_balances_stay_nonnegative(s: LedgerState, player: PlayerId, txn: TxnView)
    requires
        forall|q: PlayerId| s.balances.contains_key(q) ==> s.balances[q] >= 0,
    ensures
        forall|q: PlayerId| #![auto]
            ledger_step(s, player, txn).0.balances.contains_key(q) ==> ledger_step(
                s,
                player,
                txn,
            ).0.balances[q] >= 0,
{
}

/// A rejected transaction leaves the ledger untouched and reports the
/// unchanged balance of the player.
pub proof fn lemma_ledger_rejection_leaves_state(s: LedgerState, player: PlayerId, txn: TxnView)
    requires
        !ledger_step(s, player, txn).1.accepted,
    ensures
        ledger_step(s, player, txn).0 == s,
        ledger_step(s, player, txn).1.new_balance == balance_in(s.balances, player),
{
}

/// The commit log is append-only: a step keeps the old log as a prefix and
/// adds at most one entry, exactly when a new transaction is accepted.
pub proof fn lemma_ledger_log_is_append_only(s: LedgerState, player: PlayerId, txn: TxnView)
    ensures
        ({
            let (s1, a) = ledger_step(s, player, txn);
            &&& s.log.is_prefix_of(s1.log)
            &&& s1.log.len() == s.log.len() + (if a.accepted && !s.txns.contains_key(txn.txn_id) {
                1int
            } else {
                0int
            })
        }),
{
    let s1 = ledger_step(s, player, txn).0;
    assert(s.log.is_prefix_of(s1.log)) by {
        assert forall|i: int| 0 <= i < s.log.len() implies s.log[i] == s1.log[i] by {}
    }
}

/// Players have independent balances: applying a transaction to one player
/// never changes another player's balance.
pub proof fn lemma_ledger_players_are_independent(
    s: LedgerState,
    player: PlayerId,
    txn: TxnView,
    other: PlayerId,
)
    requires
        other != player,
    ensures
        balance_in(ledger_step(s, player, txn).0.balances, other) == balance_in(s.balances, other),
{
}

/// An accepted new transaction moves the player's balance by exactly the
/// transaction's amount.
pub proof fn lemma_ledger_credit_moves_balance(s: LedgerState, player: PlayerId, txn: TxnView)
    requires
        !s.txns.contains_key(txn.txn_id),
        ledger_step(s, player, txn).1.accepted,
    ensures
        balance_in(ledger_step(s, player, txn).0.balances, player) == balance_in(s.balances, player)
            + txn.amount_gold,
        ledger_step(s, player, txn).1.new_balance == balance_in(s.balances, player)
            + txn.amount_gold,
{
}

/// The state after applying the transactions `ops` (player, transaction)
/// in order, starting from `s`.
pub open spec fn ledger_run(s: LedgerState, ops: Seq<(PlayerId, TxnView)>) -> LedgerState
    decreases ops.len(),
{
    if ops.len() == 0 {
        s
    } else {
        ledger_step(ledger_run(s, ops.drop_last()), ops.last().0, ops.last().1).0
    }
}

/// Over any sequence of transactions from an empty ledger, every player's
/// balance stays non-negative after every call.
pub proof fn lemma_ledger_run_keeps_balances_nonnegative(ops: Seq<(PlayerId, TxnView)>)
    ensures
        forall|q: PlayerId| #[trigger]
            balance_in(ledger_run(empty_ledger_state(), ops).balances, q) >= 0,
    decreases ops.len(),
{
    if ops.len() > 0 {
        lemma_ledger_run_keeps_balances_nonnegative(ops.drop_last());
        let prev = ledger_run(empty_ledger_state(), ops.drop_last());
        assert forall|q: PlayerId| prev.balances.contains_key(q) implies prev.balances[q] >= 0 by {
            assert(balance_in(prev.balances, q) >= 0);
        }
        lemma_ledger_balances_stay_nonnegative(prev, ops.last().0, ops.last().1);
        let next = ledger_run(empty_ledger_state(), ops);
        assert forall|q: PlayerId| #[trigger] balance_in(next.balances, q) >= 0 by {
            if next.balances.contains_key(q) {
                assert(next.balances[q] >= 0);
            }
        }
    }
}

/// Over any sequence, each call changes at most the balance of its own
/// player, and a rejected call leaves every balance and the log unchanged.
pub proof fn lemma_ledger_run_step_is_local(
    s: LedgerState,
    ops: Seq<(PlayerId, TxnView)>,
    q: PlayerId,
)
    requires
        ops.len() > 0,
    ensures
        ({
            let prev = ledger_run(s, ops.drop_last());
            let (next, ack) = ledger_step(prev, ops.last().0, ops.last().1);
            &&& next == ledger_run(s, ops)
            &&& q != ops.last().0 ==> balance_in(next.balances, q) == balance_in(prev.balances, q)
            &&& !ack.accepted ==> next.balances == prev.balances && next.log == prev.log
        }),
{
}

/// Persistence backing the ledger. `commit` is atomic: on success the state
/// moves exactly to [`ledger_commit`], on failure it is left as it was.
pub trait LedgerStore {
    /// Error type surfaced by the backing store.
    type Error;

    /// The abstract state of the store.
    spec fn ledger_state(&self) -> LedgerState;

    /// Whether the store never fails: every call on it returns `Ok`.
    spec fn infallible(&self) -> bool;

    /// Current gold balance for `player` (0 if the player has no balance yet).
    fn balance(&self, player: PlayerId) -> (r: Result<i64, Self::Error>)
        ensures
            self.infallible() ==> r is Ok,
            r matches Ok(b) ==> b == balance_in(self.ledger_state().balances, player),
    ;

    /// The record of `txn_id` if it was already committed, else `None`.
    fn lookup_txn(&self, txn_id: u64) -> (r: Result<Option<RecordedTxn>, Self::Error>)
        ensures
            self.infallible() ==> r is Ok,
            r matches Ok(o) ==> o == txn_record(self.ledger_state().txns, txn_id),
    ;

    /// Append `txn` to the log and set `player`'s balance to `new_balance`.
    fn commit(&mut self, player: PlayerId, txn: &Txn, new_balance: i64) -> (r: Result<
        (),
        Self::Error,
    >)
        ensures
            old(self).infallible() ==> r is Ok,
            r is Ok ==> final(self).ledger_state() == ledger_commit(
                old(self).ledger_state(),
                player,
                txn@,
                new_balance,
            ),
            r is Err ==> final(self).ledger_state() == old(self).ledger_state(),
    ;
}

/// The ledger: a thin policy layer over a [`LedgerStore`].
#[derive(Debug, Default)]
pub struct Ledger<S> {
    store: S,
}

impl<S: LedgerStore> Ledger<S> {
    /// The store this ledger writes through.
    pub closed spec fn spec_store(&self) -> S {
        self.store
    }

    pub fn new(store: S) -> (r: Ledger<S>)
        ensures
            r.spec_store() == store,
    {
        Ledger { store }
    }

    /// Borrow the underlying store.
    pub fn store(&self) -> (r: &S)
        ensures
            *r == self.spec_store(),
    {
        &self.store
    }

    /// Mutable access to the underlying store.
    pub fn store_mut(&mut self) -> (r: &mut S)
        ensures
            *r == old(self).spec_store(),
            final(self).spec_store() == *final(r),
    {
        &mut self.store
    }

    /// Consume the ledger, returning the store.
    pub fn into_store(self) -> (r: S)
        ensures
            r == self.spec_store(),
    {
        self.store
    }

    /// Apply `txn` to `player`: see [`ledger_step`]. The store is asked in
    /// turn for the transaction's record, the balance and the commit, and
    /// each answer is decided by [`ledger_after_lookup`],
    /// [`ledger_after_balance`] and [`ledger_after_commit`]: the first store
    /// error ends the call and is returned as it came, and leaves the store's
    /// state unchanged.
    pub fn apply(&mut self, player: PlayerId, txn: &Txn) -> (r: Result<LedgerAck, S::Error>)
        ensures
            old(self).spec_store().infallible() ==> r is Ok,
            r matches Ok(ack) ==> (final(self).spec_store().ledger_state(), ack@) == ledger_step(
                old(self).spec_store().ledger_state(),
                player,
                txn@,
            ),
            r is Err ==> final(self).spec_store().ledger_state() == old(
                self,
            ).spec_store().ledger_state(),
    {
        let looked = self.store.lookup_txn(txn.txn_id);
        match ledger_after_lookup(txn, looked) {
            Err(e) => return Err(e),
            Ok(LedgerPlan::Reply(ack)) => return Ok(ack),
            Ok(_) => {},
        }
        let balance = self.store.balance(player);
        match ledger_after_balance(txn, balance) {
            Err(e) => Err(e),
            Ok(LedgerPlan::Reply(ack)) => Ok(ack),
            Ok(LedgerPlan::Commit(new_balance)) => {
                let committed = self.store.commit(player, txn, new_balance);
                ledger_after_commit(txn, new_balance, committed)
            },
            Ok(LedgerPlan::ReadBalance) => {
                proof {
                    assert(false);
                }
                Ok(LedgerAck { txn_id: txn.txn_id, accepted: false, new_balance: 0, reason: String::new() })
            },
        }
    }
}

/// What [`Ledger::apply`] does after a store call came back.
pub enum LedgerPlan {
    /// Answer with this acknowledgement; nothing more is asked of the store.
    Reply(LedgerAck),
    /// Read the player's balance next.
    ReadBalance,
    /// Commit the transaction with this new balance next.
    Commit(i64),
}

/// The acknowledgement of a replayed transaction.
pub open spec fn ledger_replay_ack(txn_id: u64, rec: RecordedTxn) -> LedgerAckView {
    LedgerAckView { txn_id, accepted: true, new_balance: rec.new_balance, reason: reason_duplicate() }
}

/// After the lookup of `txn`'s id: a store error is passed on as it is; a
/// committed id is answered from its record; else the balance is read.
pub fn ledger_after_lookup<E>(txn: &Txn, looked: Result<Option<RecordedTxn>, E>) -> (r: Result<LedgerPlan, E>)
    ensures
        match looked {
            Err(e) => r == Err::<LedgerPlan, E>(e),
            Ok(Some(rec)) => r matches Ok(LedgerPlan::Reply(a)) && a@ == ledger_replay_ack(txn.txn_id, rec),
            Ok(None) => r matches Ok(LedgerPlan::ReadBalance),
        },
{
    match looked {
        Err(e) => Err(e),
        Ok(Some(rec)) => Ok(
            LedgerPlan::Reply(
                LedgerAck {
                    txn_id: txn.txn_id,
                    accepted: true,
                    new_balance: rec.new_balance,
                    reason: "duplicate (idempotent replay)".to_owned(),
                },
            ),
        ),
        Ok(None) => Ok(LedgerPlan::ReadBalance),
    }
}

/// After reading the balance: a store error is passed on as it is; a sum
/// outside `i64` or below zero is refused with the balance unchanged; else
/// the new balance is committed.
pub fn ledger_after_balance<E>(txn: &Txn, balance: Result<i64, E>) -> (r: Result<LedgerPlan, E>)
    ensures
        match balance {
            Err(e) => r == Err::<LedgerPlan, E>(e),
            Ok(b) => {
                let sum = b + txn.amount_gold;
                if sum < i64::MIN || sum > i64::MAX {
                    r matches Ok(LedgerPlan::Reply(a)) && a@ == (LedgerAckView {
                        txn_id: txn.txn_id,
                        accepted: false,
                        new_balance: b,
                        reason: reason_amount_out_of_range(),
                    })
                } else if sum < 0 {
                    r matches Ok(LedgerPlan::Reply(a)) && a@ == (LedgerAckView {
                        txn_id: txn.txn_id,
                        accepted: false,
                        new_balance: b,
                        reason: reason_insufficient_funds(),
                    })
                } else {
                    r matches Ok(LedgerPlan::Commit(n)) && n == sum
                }
            },
        },
{
    let b = match balance {
        Err(e) => return Err(e),
        Ok(b) => b,
    };
    match b.checked_add(txn.amount_gold) {
        Some(new_balance) => {
            if new_balance >= 0 {
                Ok(LedgerPlan::Commit(new_balance))
            } else {
                Ok(
                    LedgerPlan::Reply(
                        LedgerAck {
                            txn_id: txn.txn_id,
                            accepted: false,
                            new_balance: b,
                            reason: "insufficient funds".to_owned(),
                        },
                    ),
                )
            }
        },
        None => Ok(
            LedgerPlan::Reply(
                LedgerAck {
                    txn_id: txn.txn_id,
                    accepted: false,
                    new_balance: b,
                    reason: "amount out of range".to_owned(),
                },
            ),
        ),
    }
}

/// After the commit of `new_balance`: a store error is passed on as it is;
/// else the transaction is acknowledged as accepted.
pub fn ledger_after_commit<E>(txn: &Txn, new_balance: i64, committed: Result<(), E>) -> (r: Result<LedgerAck, E>)
    ensures
        match committed {
            Err(e) => r == Err::<LedgerAck, E>(e),
            Ok(()) => r matches Ok(a) && a@ == (LedgerAckView {
                txn_id: txn.txn_id,
                accepted: true,
                new_balance,
                reason: Seq::empty(),
            }),
        },
{
    match committed {
        Err(e) => Err(e),
        Ok(()) => Ok(LedgerAck { txn_id: txn.txn_id, accepted: true, new_balance, reason: String::new() }),
    }
}

/// A simple in-memory [`LedgerStore`].
#[derive(Debug, Default)]
pub struct MemStore {
    balances: HashMap<PlayerId, i64>,
    txns: HashMap<u64, RecordedTxn>,
    log: Vec<(PlayerId, Txn, i64)>,
}

/// The abstract view of one committed log entry.
pub open spec fn log_entry_view(e: (PlayerId, Txn, i64)) -> (PlayerId, TxnView, i64) {
    (e.0, e.1@, e.2)
}

impl MemStore {
    pub fn new() -> (r: MemStore)
        ensures
            r.ledger_state() == empty_ledger_state(),
    {
        let r = MemStore { balances: HashMap::new(), txns: HashMap::new(), log: Vec::new() };
        proof {
            assert(r.log@.map_values(|e: (PlayerId, Txn, i64)| log_entry_view(e)) =~= Seq::empty());
        }
        r
    }

    /// The append-only committed transaction log, in commit order.
    pub fn log(&self) -> (r: &[(PlayerId, Txn, i64)])
        ensures
            r@.map_values(|e: (PlayerId, Txn, i64)| log_entry_view(e)) == self.ledger_state().log,
    {
        self.log.as_slice()
    }
}

impl LedgerStore for MemStore {
    type Error = std::convert::Infallible;

    closed spec fn ledger_state(&self) -> LedgerState {
        LedgerState {
            balances: self.balances@,
            txns: self.txns@,
            log: self.log@.map_values(|e: (PlayerId, Txn, i64)| log_entry_view(e)),
        }
    }

    /// Memory operations cannot fail.
    open spec fn infallible(&self) -> bool {
        true
    }

    fn balance(&self, player: PlayerId) -> (r: Result<i64, Self::Error>)
        ensures
            r == Ok::<i64, Self::Error>(balance_in(self.ledger_state().balances, player)),
    {
        match self.balances.get(&player) {
            Some(b) => Ok(*b),
            None => Ok(0),
        }
    }

    fn lookup_txn(&self, txn_id: u64) -> (r: Result<Option<RecordedTxn>, Self::Error>)
        ensures
            r == Ok::<Option<RecordedTxn>, Self::Error>(txn_record(self.ledger_state().txns, txn_id)),
    {
        match self.txns.get(&txn_id) {
            Some(rec) => Ok(Some(*rec)),
            None => Ok(None),
        }
    }

    fn commit(&mut self, player: PlayerId, txn: &Txn, new_balance: i64) -> (r: Result<
        (),
        Self::Error,
    >)
        ensures
            r is Ok,
            final(self).ledger_state() == ledger_commit(
                old(self).ledger_state(),
                player,
                txn@,
                new_balance,
            ),
    {
        self.balances.insert(player, new_balance);
        self.txns.insert(txn.txn_id, RecordedTxn { player, new_balance });
        let entry = Txn {
            txn_id: txn.txn_id,
            amount_gold: txn.amount_gold,
            kind: txn.kind,
            note: txn.note.clone(),
        };
        let ghost old_log = self.log@;
        self.log.push((player, entry, new_balance));
        proof {
            assert(self.log@.map_values(|e: (PlayerId, Txn, i64)| log_entry_view(e)) =~= old_log.map_values(
                |e: (PlayerId, Txn, i64)| log_entry_view(e),
            ).push((player, txn@, new_balance)));
        }
        Ok(())
    }
}

// ===================================================================
// Shared port market
// ===================================================================

/// Port identifier (a stable id for a trading port / island market).
pub type PortId = u32;

/// Commodity / item identifier traded at a port.
pub type ItemId = u32;

/// Reason reported when a trade carries a negative price.
pub open spec fn reason_invalid_price() -> Seq<char> {
    "invalid price"@
}

/// Reason reported when a buy exceeds the port's stock.
pub open spec fn reason_insufficient_stock() -> Seq<char> {
    "insufficient stock"@
}

/// Reason reported when the stock arithmetic leaves the `i64` range.
pub open spec fn reason_quantity_out_of_range() -> Seq<char> {
    "quantity out of range"@
}

/// A stock-changing trade against a port's shared market. `qty` is a signed
/// delta on the port's stock: positive sells into the port, negative buys out
/// of it. `unit_price` becomes the recorded price for the (port, item).
#[derive(Debug, Clone, PartialEq, Eq)]
pub struct Trade {
    pub txn_id: u64,
    pub port_id: PortId,
    pub item_id: ItemId,
    pub qty: i64,
    pub unit_price: i64,
}

/// The result of applying (or replaying) a [`Trade`].
#[derive(Debug, Clone, PartialEq, Eq)]
pub struct MarketAck {
    pub txn_id: u64,
    pub accepted: bool,
    pub port_id: PortId,
    pub item_id: ItemId,
    pub stock: i64,
    pub price: i64,
    pub reason: String,
}

/// The mathematical content of a [`MarketAck`].
pub struct MarketAckView {
    pub txn_id: u64,
    pub accepted: bool,
    pub port_id: PortId,
    pub item_id: ItemId,
    pub stock: i64,
    pub price: i64,
    pub reason: Seq<char>,
}

impl View for MarketAck {
    type V = MarketAckView;

    open spec fn view(&self) -> MarketAckView {
        MarketAckView {
            txn_id: self.txn_id,
            accepted: self.accepted,
            port_id: self.port_id,
            item_id: self.item_id,
            stock: self.stock,
            price: self.price,
            reason: self.reason@,
        }
    }
}

/// A previously committed trade, returned on idempotent replay.
#[derive(Debug, Clone, Copy, PartialEq, Eq)]
pub struct RecordedTrade {
    pub port_id: PortId,
    pub item_id: ItemId,
    pub stock: i64,
    pub price: i64,
}

/// The abstract state of a market store: `(stock, price)` per (port, item)
/// (absent means `(0, 0)`), committed trades by id, and the append-only log.
pub struct MarketState {
    pub stock: Map<(PortId, ItemId), (i64, i64)>,
    pub trades: Map<u64, RecordedTrade>,
    pub log: Seq<(Trade, i64, i64)>,
}

/// The empty market state.
pub open spec fn empty_market_state() -> MarketState {
    MarketState { stock: Map::empty(), trades: Map::empty(), log: Seq::empty() }
}

/// `(stock, price)` of `(port, item)` in `stock`, `(0, 0)` when untouched.
pub open spec fn stock_in(stock: Map<(PortId, ItemId), (i64, i64)>, port: PortId, item: ItemId) -> (
    i64,
    i64,
) {
    if stock.contains_key((port, item)) {
        stock[(port, item)]
    } else {
        (0, 0)
    }
}

/// The record of `txn_id` in `trades`, if any.
pub open spec fn trade_record(trades: Map<u64, RecordedTrade>, txn_id: u64) -> Option<
    RecordedTrade,
> {
    if trades.contains_key(txn_id) {
        Some(trades[txn_id])
    } else {
        None
    }
}

/// The state after committing `trade` with the new stock and price.
pub open spec fn market_commit(s: MarketState, trade: Trade, new_stock: i64, new_price: i64) -> MarketState {
    MarketState {
        stock: s.stock.insert((trade.port_id, trade.item_id), (new_stock, new_price)),
        trades: s.trades.insert(
            trade.txn_id,
            RecordedTrade {
                port_id: trade.port_id,
                item_id: trade.item_id,
                stock: new_stock,
                price: new_price,
            },
        ),
        log: s.log.push((trade, new_stock, new_price)),
    }
}

/// A rejection acknowledgement for `trade` reporting the current state.
pub open spec fn market_reject(trade: Trade, stock: i64, price: i64, reason: Seq<char>) -> MarketAckView {
    MarketAckView {
        txn_id: trade.txn_id,
        accepted: false,
        port_id: trade.port_id,
        item_id: trade.item_id,
        stock,
        price,
        reason,
    }
}

/// What applying `trade` does to a market in state `s`: the new state and the
/// acknowledgement.
pub open spec fn market_step(s: MarketState, trade: Trade) -> (MarketState, MarketAckView) {
    if s.trades.contains_key(trade.txn_id) {
        let rec = s.trades[trade.txn_id];
        (
            s,
            MarketAckView {
                txn_id: trade.txn_id,
                accepted: true,
                port_id: rec.port_id,
                item_id: rec.item_id,
                stock: rec.stock,
                price: rec.price,
                reason: reason_duplicate(),
            },
        )
    } else {
        let (stock, price) = stock_in(s.stock, trade.port_id, trade.item_id);
        let sum = stock + trade.qty;
        if trade.unit_price < 0 {
            (s, market_reject(trade, stock, price, reason_invalid_price()))
        } else if sum < i64::MIN || sum > i64::MAX {
            (s, market_reject(trade, stock, price, reason_quantity_out_of_range()))
        } else if sum < 0 {
            (s, market_reject(trade, stock, price, reason_insufficient_stock()))
        } else {
            (
                market_commit(s, trade, sum as i64, trade.unit_price),
                MarketAckView {
                    txn_id: trade.txn_id,
                    accepted: true,
                    port_id: trade.port_id,
                    item_id: trade.item_id,
                    stock: sum as i64,
                    price: trade.unit_price,
                    reason: Seq::empty(),
                },
            )
        }
    }
}

/// A new trade with a non-negative price whose stock stays within
/// `0..=i64::MAX` (emptying the stock included) is accepted: the (port,
/// item) now holds the new stock at the trade's price, the trade is
/// recorded and logged, and the acknowledgement reports them.
pub proof fn lemma_market_accepts_in_range_trades(s: MarketState, trade: Trade)
    requires
        !s.trades.contains_key(trade.txn_id),
        trade.unit_price >= 0,
        0 <= stock_in(s.stock, trade.port_id, trade.item_id).0 + trade.qty <= i64::MAX,
    ensures
        ({
            let (s2, ack) = market_step(s, trade);
            let new_stock = stock_in(s.stock, trade.port_id, trade.item_id).0 + trade.qty;
            &&& ack.accepted
            &&& ack.txn_id == trade.txn_id
            &&& ack.stock == new_stock
            &&& ack.price == trade.unit_price
            &&& stock_in(s2.stock, trade.port_id, trade.item_id) == (new_stock as i64, trade.unit_price)
            &&& s2.trades.contains_key(trade.txn_id)
            &&& s2.log == s.log.push((trade, new_stock as i64, trade.unit_price))
            &&& forall|pi: (PortId, ItemId)| pi != (trade.port_id, trade.item_id) ==> stock_in(
                s2.stock,
                pi.0,
                pi.1,
            ) == stock_in(s.stock, pi.0, pi.1)
        }),
{
}

/// A trade is refused exactly when its id is new and its price is negative
/// or its stock would leave `0..=i64::MAX`; a refusal changes nothing.
pub proof fn lemma_market_refuses_only_out_of_range_trades(s: MarketState, trade: Trade)
    ensures
        ({
            let (s2, ack) = market_step(s, trade);
            let sum = stock_in(s.stock, trade.port_id, trade.item_id).0 + trade.qty;
            &&& !ack.accepted <==> (!s.trades.contains_key(trade.txn_id) && (trade.unit_price < 0
                || sum < 0 || sum > i64::MAX))
            &&& !ack.accepted ==> s2 == s
        }),
{
}

/// A new transaction that keeps the balance within `0..=i64::MAX`
/// (spending it all included) is accepted: the player's balance becomes
/// the sum, and the acknowledgement reports it.
pub proof fn lemma_ledger_accepts_in_range_txns(s: LedgerState, player: PlayerId, txn: TxnView)
    requires
        !s.txns.contains_key(txn.txn_id),
        0 <= balance_in(s.balances, player) + txn.amount_gold <= i64::MAX,
    ensures
        ({
            let (s2, ack) = ledger_step(s, player, txn);
            let sum = balance_in(s.balances, player) + txn.amount_gold;
            &&& ack.accepted
            &&& ack.new_balance == sum
            &&& balance_in(s2.balances, player) == sum
            &&& s2.txns.contains_key(txn.txn_id)
        }),
{
}

/// Replaying an accepted trade id is idempotent: the replay, whatever its
/// payload, leaves the state as the first application left it and reports the
/// same stock and price.
pub proof fn lemma_market_replay_is_idempotent(s: MarketState, trade: Trade, replay: Trade)
    requires
        market_step(s, trade).1.accepted,
        replay.txn_id == trade.txn_id,
    ensures
        ({
            let (s1, a1) = market_step(s, trade);
            let (s2, a2) = market_step(s1, replay);
            &&& s2 == s1
            &&& a2.accepted
            &&& a2.stock == a1.stock
            &&& a2.price == a1.price
            &&& a2.port_id == a1.port_id
            &&& a2.item_id == a1.item_id
        }),
{
}

/// Stock never goes negative, and every recorded price is non-negative once
/// it is: both are preserved by every step.
pub proof fn lemma_market_stock_and_price_stay_nonnegative(s: MarketState, trade: Trade)
    requires
        forall|k: (PortId, ItemId)|
            s.stock.contains_key(k) ==> s.stock[k].0 >= 0 && s.stock[k].1 >= 0,
    ensures
        forall|k: (PortId, ItemId)| #![auto]
            market_step(s, trade).0.stock.contains_key(k) ==> market_step(s, trade).0.stock[k].0
                >= 0 && market_step(s, trade).0.stock[k].1 >= 0,
{
}

/// A rejected trade leaves the market untouched.
pub proof fn lemma_market_rejection_leaves_state(s: MarketState, trade: Trade)
    requires
        !market_step(s, trade).1.accepted,
    ensures
        market_step(s, trade).0 == s,
{
}

/// The trade log is append-only: a step keeps the old log as a prefix and adds
/// at most one entry, exactly when a new trade is accepted.
pub proof fn lemma_market_log_is_append_only(s: MarketState, trade: Trade)
    ensures
        ({
            let (s1, a) = market_step(s, trade);
            &&& s.log.is_prefix_of(s1.log)
            &&& s1.log.len() == s.log.len() + (if a.accepted && !s.trades.contains_key(
                trade.txn_id,
            ) {
                1int
            } else {
                0int
            })
        }),
{
    let s1 = market_step(s, trade).0;
    assert(s.log.is_prefix_of(s1.log)) by {
        assert forall|i: int| 0 <= i < s.log.len() implies s.log[i] == s1.log[i] by {}
    }
}

/// Distinct (port, item) pairs are independent: a trade never changes the
/// stock or price of any other pair.
pub proof fn lemma_market_pairs_are_independent(
    s: MarketState,
    trade: Trade,
    port: PortId,
    item: ItemId,
)
    requires
        (port, item) != (trade.port_id, trade.item_id),
    ensures
        stock_in(market_step(s, trade).0.stock, port, item) == stock_in(s.stock, port, item),
{
}

/// Persistence backing the shared market. `commit` is atomic: on success the
/// state moves exactly to [`market_commit`], on failure it is left as it was.
pub trait MarketStore {
    /// Error type surfaced by the backing store.
    type Error;

    /// The abstract state of the store.
    spec fn market_state(&self) -> MarketState;

    /// Whether the store never fails: every call on it returns `Ok`.
    spec fn infallible(&self) -> bool;

    /// Current `(stock, price)` for `(port, item)`, `(0, 0)` if untouched.
    fn state(&self, port: PortId, item: ItemId) -> (r: Result<(i64, i64), Self::Error>)
        ensures
            self.infallible() ==> r is Ok,
            r matches Ok(v) ==> v == stock_in(self.market_state().stock, port, item),
    ;

    /// The record of `txn_id` if the trade was already committed, else `None`.
    fn lookup_trade(&self, txn_id: u64) -> (r: Result<Option<RecordedTrade>, Self::Error>)
        ensures
            self.infallible() ==> r is Ok,
            r matches Ok(o) ==> o == trade_record(self.market_state().trades, txn_id),
    ;

    /// Append `trade` to the dedup log and set `(port, item)` to the new state.
    fn commit(&mut self, trade: &Trade, new_stock: i64, new_price: i64) -> (r: Result<
        (),
        Self::Error,
    >)
        ensures
            old(self).infallible() ==> r is Ok,
            r is Ok ==> final(self).market_state() == market_commit(
                old(self).market_state(),
                *trade,
                new_stock,
                new_price,
            ),
            r is Err ==> final(self).market_state() == old(self).market_state(),
    ;
}

/// The shared port market: a thin policy layer over a [`MarketStore`],
/// mirroring [`Ledger`] for per-port stock.
#[derive(Debug, Default)]
pub struct Market<S> {
    store: S,
}

impl<S: MarketStore> Market<S> {
    /// The store this market writes through.
    pub closed spec fn spec_store(&self) -> S {
        self.store
    }

    pub fn new(store: S) -> (r: Market<S>)
        ensures
            r.spec_store() == store,
    {
        Market { store }
    }

    /// Borrow the underlying store.
    pub fn store(&self) -> (r: &S)
        ensures
            *r == self.spec_store(),
    {
        &self.store
    }

    /// Mutable access to the underlying store.
    pub fn store_mut(&mut self) -> (r: &mut S)
        ensures
            *r == old(self).spec_store(),
            final(self).spec_store() == *final(r),
    {
        &mut self.store
    }

    /// Consume the market, returning the store.
    pub fn into_store(self) -> (r: S)
        ensures
            r == self.spec_store(),
    {
        self.store
    }

    /// Apply `trade` to the shared per-port stock/price: see [`market_step`].
    /// The store is asked in turn for the trade's record, the stock and the
    /// commit, and each answer is decided by [`market_after_lookup`],
    /// [`market_after_state`] and [`market_after_commit`]: the first store
    /// error ends the call and is returned as it came, and leaves the store's
    /// state unchanged.
    pub fn apply(&mut self, trade: &Trade) -> (r: Result<MarketAck, S::Error>)
        ensures
            old(self).spec_store().infallible() ==> r is Ok,
            r matches Ok(ack) ==> (final(self).spec_store().market_state(), ack@) == market_step(
                old(self).spec_store().market_state(),
                *trade,
            ),
            r is Err ==> final(self).spec_store().market_state() == old(
                self,
            ).spec_store().market_state(),
    {
        let looked = self.store.lookup_trade(trade.txn_id);
        match market_after_lookup(trade, looked) {
            Err(e) => return Err(e),
            Ok(MarketPlan::Reply(ack)) => return Ok(ack),
            Ok(_) => {},
        }
        let state = self.store.state(trade.port_id, trade.item_id);
        match market_after_state(trade, state) {
            Err(e) => Err(e),
            Ok(MarketPlan::Reply(ack)) => Ok(ack),
            Ok(MarketPlan::Commit(new_stock, new_price)) => {
                let committed = self.store.commit(trade, new_stock, new_price);
                market_after_commit(trade, new_stock, new_price, committed)
            },
            Ok(MarketPlan::ReadState) => {
                proof {
                    assert(false);
                }
                Ok(market_reject_exec(trade, 0, 0, ""))
            },
        }
    }
}

/// What [`Market::apply`] does after a store call came back.
pub enum MarketPlan {
    /// Answer with this acknowledgement; nothing more is asked of the store.
    Reply(MarketAck),
    /// Read the (port, item) stock and price next.
    ReadState,
    /// Commit the trade with this new stock and price next.
    Commit(i64, i64),
}

/// The acknowledgement of a replayed trade.
pub open spec fn market_replay_ack(txn_id: u64, rec: RecordedTrade) -> MarketAckView {
    MarketAckView {
        txn_id,
        accepted: true,
        port_id: rec.port_id,
        item_id: rec.item_id,
        stock: rec.stock,
        price: rec.price,
        reason: reason_duplicate(),
    }
}

fn market_reject_exec(trade: &Trade, stock: i64, price: i64, reason: &str) -> (r: MarketAck)
    ensures
        r@ == market_reject(*trade, stock, price, reason@),
{
    MarketAck {
        txn_id: trade.txn_id,
        accepted: false,
        port_id: trade.port_id,
        item_id: trade.item_id,
        stock,
        price,
        reason: reason.to_owned(),
    }
}

/// After the lookup of the trade's id: a store error is passed on as it
/// is; a committed id is answered from its record; else the stock is read.
pub fn market_after_lookup<E>(trade: &Trade, looked: Result<Option<RecordedTrade>, E>) -> (r: Result<MarketPlan, E>)
    ensures
        match looked {
            Err(e) => r == Err::<MarketPlan, E>(e),
            Ok(Some(rec)) => r matches Ok(MarketPlan::Reply(a)) && a@ == market_replay_ack(trade.txn_id, rec),
            Ok(None) => r matches Ok(MarketPlan::ReadState),
        },
{
    match looked {
        Err(e) => Err(e),
        Ok(Some(rec)) => Ok(
            MarketPlan::Reply(
                MarketAck {
                    txn_id: trade.txn_id,
                    accepted: true,
                    port_id: rec.port_id,
                    item_id: rec.item_id,
                    stock: rec.stock,
                    price: rec.price,
                    reason: "duplicate (idempotent replay)".to_owned(),
                },
            ),
        ),
        Ok(None) => Ok(MarketPlan::ReadState),
    }
}

/// After reading `(stock, price)`: a store error is passed on as it is; a
/// negative price, a stock sum outside `i64`, or a stock that would go
/// below zero is refused reporting the current state; else the new stock
/// and the trade's price are committed.
pub fn market_after_state<E>(trade: &Trade, state: Result<(i64, i64), E>) -> (r: Result<MarketPlan, E>)
    ensures
        match state {
            Err(e) => r == Err::<MarketPlan, E>(e),
            Ok((stock, price)) => {
                let sum = stock + trade.qty;
                if trade.unit_price < 0 {
                    r matches Ok(MarketPlan::Reply(a)) && a@ == market_reject(*trade, stock, price, reason_invalid_price())
                } else if sum < i64::MIN || sum > i64::MAX {
                    r matches Ok(MarketPlan::Reply(a)) && a@ == market_reject(*trade, stock, price, reason_quantity_out_of_range())
                } else if sum < 0 {
                    r matches Ok(MarketPlan::Reply(a)) && a@ == market_reject(*trade, stock, price, reason_insufficient_stock())
                } else {
                    r matches Ok(MarketPlan::Commit(n, p)) && n == sum && p == trade.unit_price
                }
            },
        },
{
    let (stock, price) = match state {
        Err(e) => return Err(e),
        Ok(v) => v,
    };
    if trade.unit_price < 0 {
        return Ok(MarketPlan::Reply(market_reject_exec(trade, stock, price, "invalid price")));
    }
    match stock.checked_add(trade.qty) {
        Some(new_stock) => {
            if new_stock >= 0 {
                Ok(MarketPlan::Commit(new_stock, trade.unit_price))
            } else {
                Ok(MarketPlan::Reply(market_reject_exec(trade, stock, price, "insufficient stock")))
            }
        },
        None => Ok(MarketPlan::Reply(market_reject_exec(trade, stock, price, "quantity out of range"))),
    }
}

/// After the commit: a store error is passed on as it is; else the trade is
/// acknowledged as accepted with its new stock and price.
pub fn market_after_commit<E>(trade: &Trade, new_stock: i64, new_price: i64, committed: Result<(), E>) -> (r: Result<MarketAck, E>)
    ensures
        match committed {
            Err(e) => r == Err::<MarketAck, E>(e),
            Ok(()) => r matches Ok(a) && a@ == (MarketAckView {
                txn_id: trade.txn_id,
                accepted: true,
                port_id: trade.port_id,
                item_id: trade.item_id,
                stock: new_stock,
                price: new_price,
                reason: Seq::empty(),
            }),
        },
{
    match committed {
        Err(e) => Err(e),
        Ok(()) => Ok(
            MarketAck {
                txn_id: trade.txn_id,
                accepted: true,
                port_id: trade.port_id,
                item_id: trade.item_id,
                stock: new_stock,
                price: new_price,
                reason: String::new(),
            },
        ),
    }
}


/// The key under which [`MemMarketStore`] files `(port, item)`.
pub open spec fn pair_key(port: PortId, item: ItemId) -> u64 {
    ((port as u64) << 32u64) | (item as u64)
}

proof fn lemma_pair_key_injective(p1: PortId, i1: ItemId, p2: PortId, i2: ItemId)
    ensures
        pair_key(p1, i1) == pair_key(p2, i2) ==> p1 == p2 && i1 == i2,
{
    assert(((p1 as u64) << 32u64) | (i1 as u64) == ((p2 as u64) << 32u64) | (i2 as u64) ==> p1
        == p2 && i1 == i2) by (bit_vector);
}

fn pack_pair(port: PortId, item: ItemId) -> (r: u64)
    ensures
        r == pair_key(port, item),
{
    ((port as u64) << 32u64) | (item as u64)
}

/// A simple in-memory [`MarketStore`].
#[derive(Debug, Default)]
pub struct MemMarketStore {
    state: HashMap<u64, (i64, i64)>,
    trades: HashMap<u64, RecordedTrade>,
    log: Vec<(Trade, i64, i64)>,
}

impl MemMarketStore {
    pub fn new() -> (r: MemMarketStore)
        ensures
            r.market_state() == empty_market_state(),
    {
        let r = MemMarketStore { state: HashMap::new(), trades: HashMap::new(), log: Vec::new() };
        proof {
            assert(r.market_state().stock =~= Map::empty());
        }
        r
    }

    /// The append-only committed trade log, in commit order.
    pub fn log(&self) -> (r: &[(Trade, i64, i64)])
        ensures
            r@ == self.market_state().log,
    {
        self.log.as_slice()
    }
}

impl MarketStore for MemMarketStore {
    type Error = std::convert::Infallible;

    closed spec fn market_state(&self) -> MarketState {
        MarketState {
            stock: Map::new(
                |k: (PortId, ItemId)| self.state@.contains_key(pair_key(k.0, k.1)),
                |k: (PortId, ItemId)| self.state@[pair_key(k.0, k.1)],
            ),
            trades: self.trades@,
            log: self.log@,
        }
    }

    /// Memory operations cannot fail.
    open spec fn infallible(&self) -> bool {
        true
    }

    fn state(&self, port: PortId, item: ItemId) -> (r: Result<(i64, i64), Self::Error>)
        ensures
            r == Ok::<(i64, i64), Self::Error>(stock_in(self.market_state().stock, port, item)),
    {
        let key = pack_pair(port, item);
        match self.state.get(&key) {
            Some(v) => Ok(*v),
            None => Ok((0, 0)),
        }
    }

    fn lookup_trade(&self, txn_id: u64) -> (r: Result<Option<RecordedTrade>, Self::Error>)
        ensures
            r == Ok::<Option<RecordedTrade>, Self::Error>(trade_record(self.market_state().trades, txn_id)),
    {
        match self.trades.get(&txn_id) {
            Some(rec) => Ok(Some(*rec)),
            None => Ok(None),
        }
    }

    fn commit(&mut self, trade: &Trade, new_stock: i64, new_price: i64) -> (r: Result<
        (),
        Self::Error,
    >)
        ensures
            r is Ok,
            final(self).market_state() == market_commit(
                old(self).market_state(),
                *trade,
                new_stock,
                new_price,
            ),
    {
        let ghost old_stock = old(self).market_state().stock;
        let key = pack_pair(trade.port_id, trade.item_id);
        self.state.insert(key, (new_stock, new_price));
        self.trades.insert(
            trade.txn_id,
            RecordedTrade {
                port_id: trade.port_id,
                item_id: trade.item_id,
                stock: new_stock,
                price: new_price,
            },
        );
        let entry = Trade {
            txn_id: trade.txn_id,
            port_id: trade.port_id,
            item_id: trade.item_id,
            qty: trade.qty,
            unit_price: trade.unit_price,
        };
        self.log.push((entry, new_stock, new_price));
        proof {
            assert forall|k: (PortId, ItemId)| #![auto]
                self.state@.contains_key(pair_key(k.0, k.1)) == old_stock.insert(
                    (trade.port_id, trade.item_id),
                    (new_stock, new_price),
                ).contains_key(k) by {
                lemma_pair_key_injective(k.0, k.1, trade.port_id, trade.item_id);
            }
            assert forall|k: (PortId, ItemId)| #![auto]
                self.state@.contains_key(pair_key(k.0, k.1)) implies self.state@[pair_key(k.0, k.1)]
                == old_stock.insert((trade.port_id, trade.item_id), (new_stock, new_price))[k] by {
                lemma_pair_key_injective(k.0, k.1, trade.port_id, trade.item_id);
            }
            assert(self.market_state().stock =~= old_stock.insert(
                (trade.port_id, trade.item_id),
                (new_stock, new_price),
            ));
        }
        Ok(())
    }
}

} // verus!
