use sailwind_online::econ::{
    ledger_after_balance, ledger_after_commit, ledger_after_lookup, market_after_commit,
    market_after_lookup, market_after_state, ItemId, Ledger, LedgerPlan, LedgerStore, Market,
    MarketPlan, MarketStore, MemMarketStore, MemStore, PortId, RecordedTxn, Trade, Txn,
};

fn txn(id: u64, amount: i64) -> Txn {
    Txn {
        txn_id: id,
        amount_gold: amount,
        kind: 0,
        note: String::new(),
    }
}

fn trade(txn_id: u64, port: PortId, item: ItemId, qty: i64, price: i64) -> Trade {
    Trade {
        txn_id,
        port_id: port,
        item_id: item,
        qty,
        unit_price: price,
    }
}

#[test]
fn credit_then_balance_updates() {
    let mut ledger = Ledger::new(MemStore::new());
    let ack = ledger.apply(1, &txn(1, 100)).unwrap();
    assert!(ack.accepted);
    assert_eq!(ack.new_balance, 100);
    assert_eq!(ledger.store().balance(1).unwrap(), 100);
}

#[test]
fn replaying_same_txn_id_is_idempotent() {
    let mut ledger = Ledger::new(MemStore::new());
    let first = ledger.apply(1, &txn(1, 100)).unwrap();
    let second = ledger.apply(1, &txn(1, 100)).unwrap();
    assert!(second.accepted);
    assert_eq!(second.new_balance, first.new_balance);
    assert_eq!(ledger.store().balance(1).unwrap(), 100);
    assert_eq!(ledger.store().log().len(), 1);
}

#[test]
fn replay_does_not_reapply_even_with_different_amount() {
    let mut ledger = Ledger::new(MemStore::new());
    ledger.apply(1, &txn(7, 50)).unwrap();
    let replay = ledger.apply(1, &txn(7, 999)).unwrap();
    assert_eq!(replay.new_balance, 50);
    assert_eq!(ledger.store().balance(1).unwrap(), 50);
}

#[test]
fn balance_never_goes_negative() {
    let mut ledger = Ledger::new(MemStore::new());
    ledger.apply(1, &txn(1, 30)).unwrap();
    let ack = ledger.apply(1, &txn(2, -100)).unwrap();
    assert!(!ack.accepted);
    assert_eq!(ack.reason, "insufficient funds");
    assert_eq!(ack.new_balance, 30);
    assert_eq!(ledger.store().balance(1).unwrap(), 30);
    assert_eq!(ledger.store().log().len(), 1);
}

#[test]
fn overflow_is_rejected_not_wrapped() {
    let mut ledger = Ledger::new(MemStore::new());
    ledger.apply(1, &txn(1, i64::MAX)).unwrap();
    let ack = ledger.apply(1, &txn(2, 1)).unwrap();
    assert!(!ack.accepted);
    assert_eq!(ack.reason, "amount out of range");
    assert_eq!(ledger.store().balance(1).unwrap(), i64::MAX);
}

#[test]
fn distinct_players_have_independent_balances() {
    let mut ledger = Ledger::new(MemStore::new());
    ledger.apply(1, &txn(1, 100)).unwrap();
    ledger.apply(2, &txn(2, 40)).unwrap();
    assert_eq!(ledger.store().balance(1).unwrap(), 100);
    assert_eq!(ledger.store().balance(2).unwrap(), 40);
}

#[test]
fn duplicate_replay_reports_the_replay_reason_and_keeps_the_log() {
    let mut ledger = Ledger::new(MemStore::new());
    ledger.apply(3, &txn(9, 25)).unwrap();
    let replay = ledger.apply(4, &txn(9, -1000)).unwrap();
    assert!(replay.accepted);
    assert_eq!(replay.txn_id, 9);
    assert_eq!(replay.reason, "duplicate (idempotent replay)");
    assert_eq!(replay.new_balance, 25);
    assert_eq!(ledger.store().balance(4).unwrap(), 0);
    let store = ledger.into_store();
    assert_eq!(store.log().len(), 1);
    assert_eq!(store.log()[0].0, 3);
    assert_eq!(store.log()[0].1, txn(9, 25));
    assert_eq!(store.log()[0].2, 25);
}

#[test]
fn debit_to_exactly_zero_is_accepted() {
    let mut ledger = Ledger::new(MemStore::new());
    ledger.apply(1, &txn(1, 10)).unwrap();
    let ack = ledger.apply(1, &txn(2, -10)).unwrap();
    assert!(ack.accepted);
    assert_eq!(ack.new_balance, 0);
    assert_eq!(ack.reason, "");
    assert_eq!(ledger.store().balance(1).unwrap(), 0);
}

#[test]
fn negative_overflow_is_rejected_as_out_of_range() {
    let mut ledger = Ledger::new(MemStore::new());
    let ack = ledger.apply(1, &txn(1, i64::MIN)).unwrap();
    assert!(!ack.accepted);
    assert_eq!(ack.reason, "insufficient funds");
    ledger.store_mut().commit(1, &txn(50, -5), -5).unwrap();
    let ack = ledger.apply(1, &txn(2, i64::MIN)).unwrap();
    assert!(!ack.accepted);
    assert_eq!(ack.reason, "amount out of range");
    assert_eq!(ack.new_balance, -5);
}

#[test]
fn selling_to_a_port_raises_shared_stock() {
    let mut market = Market::new(MemMarketStore::new());
    let ack = market.apply(&trade(1, 10, 5, 30, 100)).unwrap();
    assert!(ack.accepted);
    assert_eq!(ack.stock, 30);
    assert_eq!(ack.price, 100);
    assert_eq!(market.store().state(10, 5).unwrap(), (30, 100));
}

#[test]
fn replaying_same_txn_id_does_not_double_apply() {
    let mut market = Market::new(MemMarketStore::new());
    let first = market.apply(&trade(7, 10, 5, 40, 100)).unwrap();
    let replay = market.apply(&trade(7, 10, 5, 999, 999)).unwrap();
    assert!(replay.accepted);
    assert_eq!(replay.stock, first.stock);
    assert_eq!(replay.price, first.price);
    assert_eq!(market.store().state(10, 5).unwrap(), (40, 100));
    assert_eq!(market.store().log().len(), 1);
}

#[test]
fn buying_more_than_stock_is_rejected_and_leaves_state() {
    let mut market = Market::new(MemMarketStore::new());
    market.apply(&trade(1, 10, 5, 20, 100)).unwrap();
    let ack = market.apply(&trade(2, 10, 5, -50, 100)).unwrap();
    assert!(!ack.accepted);
    assert_eq!(ack.reason, "insufficient stock");
    assert_eq!(ack.stock, 20);
    assert_eq!(market.store().state(10, 5).unwrap(), (20, 100));
    assert_eq!(market.store().log().len(), 1);
}

#[test]
fn buying_reduces_stock() {
    let mut market = Market::new(MemMarketStore::new());
    market.apply(&trade(1, 10, 5, 50, 100)).unwrap();
    let ack = market.apply(&trade(2, 10, 5, -20, 110)).unwrap();
    assert!(ack.accepted);
    assert_eq!(ack.stock, 30);
    assert_eq!(ack.price, 110);
}

#[test]
fn overflowing_stock_is_rejected_not_wrapped() {
    let mut market = Market::new(MemMarketStore::new());
    market.apply(&trade(1, 10, 5, i64::MAX, 100)).unwrap();
    let ack = market.apply(&trade(2, 10, 5, 1, 100)).unwrap();
    assert!(!ack.accepted);
    assert_eq!(ack.reason, "quantity out of range");
    assert_eq!(market.store().state(10, 5).unwrap(), (i64::MAX, 100));
}

#[test]
fn negative_price_is_rejected() {
    let mut market = Market::new(MemMarketStore::new());
    let ack = market.apply(&trade(1, 10, 5, 10, -1)).unwrap();
    assert!(!ack.accepted);
    assert_eq!(ack.reason, "invalid price");
    assert_eq!(market.store().state(10, 5).unwrap(), (0, 0));
    assert_eq!(market.store().log().len(), 0);
}

#[test]
fn distinct_ports_and_items_are_independent() {
    let mut market = Market::new(MemMarketStore::new());
    market.apply(&trade(1, 10, 5, 30, 100)).unwrap();
    market.apply(&trade(2, 10, 6, 40, 200)).unwrap();
    market.apply(&trade(3, 11, 5, 50, 300)).unwrap();
    assert_eq!(market.store().state(10, 5).unwrap(), (30, 100));
    assert_eq!(market.store().state(10, 6).unwrap(), (40, 200));
    assert_eq!(market.store().state(11, 5).unwrap(), (50, 300));
}

#[test]
fn replay_reports_the_recorded_port_and_item() {
    let mut market = Market::new(MemMarketStore::new());
    market.apply(&trade(4, 2, 3, 15, 9)).unwrap();
    let replay = market.apply(&trade(4, 8, 8, 1, 1)).unwrap();
    assert!(replay.accepted);
    assert_eq!(replay.port_id, 2);
    assert_eq!(replay.item_id, 3);
    assert_eq!(replay.stock, 15);
    assert_eq!(replay.price, 9);
    assert_eq!(replay.reason, "duplicate (idempotent replay)");
    assert_eq!(market.store().state(8, 8).unwrap(), (0, 0));
    let store = market.into_store();
    assert_eq!(store.log()[0], (trade(4, 2, 3, 15, 9), 15, 9));
}

#[test]
fn rejected_trade_reports_current_stock_and_price() {
    let mut market = Market::new(MemMarketStore::new());
    market.apply(&trade(1, 1, 1, 5, 70)).unwrap();
    let ack = market.apply(&trade(2, 1, 1, -6, 80)).unwrap();
    assert!(!ack.accepted);
    assert_eq!((ack.port_id, ack.item_id, ack.stock, ack.price), (1, 1, 5, 70));
    let ack = market.apply(&trade(3, 1, 1, 0, -3)).unwrap();
    assert_eq!(ack.reason, "invalid price");
    assert_eq!((ack.stock, ack.price), (5, 70));
}

#[test]
fn port_and_item_keys_do_not_collide() {
    let mut market = Market::new(MemMarketStore::new());
    market.apply(&trade(1, 1, 0, 10, 1)).unwrap();
    market.apply(&trade(2, 0, 1, 20, 2)).unwrap();
    market.apply(&trade(3, u32::MAX, u32::MAX, 30, 3)).unwrap();
    assert_eq!(market.store().state(1, 0).unwrap(), (10, 1));
    assert_eq!(market.store().state(0, 1).unwrap(), (20, 2));
    assert_eq!(market.store().state(u32::MAX, u32::MAX).unwrap(), (30, 3));
    assert_eq!(market.store().state(0, 0).unwrap(), (0, 0));
}

#[test]
fn ledger_sequence_never_goes_negative() {
    let mut ledger = Ledger::new(MemStore::new());
    let ops: Vec<(u64, Txn)> = vec![
        (1, txn(1, 50)),
        (2, txn(2, -10)),
        (1, txn(3, -80)),
        (2, txn(4, 30)),
        (1, txn(5, -50)),
        (2, txn(6, -31)),
        (1, txn(1, 50)),
    ];
    for (player, t) in ops.iter() {
        let before: Vec<i64> = (1..=2).map(|q| ledger.store().balance(q).unwrap()).collect();
        let log_before = ledger.store().log().len();
        let ack = ledger.apply(*player, t).unwrap();
        for q in 1..=2u64 {
            let b = ledger.store().balance(q).unwrap();
            assert!(b >= 0);
            if q != *player || !ack.accepted {
                assert_eq!(b, before[(q - 1) as usize]);
            }
        }
        if !ack.accepted {
            assert_eq!(ledger.store().log().len(), log_before);
        }
    }
    assert_eq!(ledger.store().balance(1).unwrap(), 0);
    assert_eq!(ledger.store().balance(2).unwrap(), 30);
}

#[test]
fn ledger_steps_pass_store_errors_through() {
    let t = txn(9, -30);
    assert_eq!(
        ledger_after_lookup::<&str>(&t, Err("disk")).err(),
        Some("disk")
    );
    match ledger_after_lookup::<&str>(&t, Ok(Some(RecordedTxn { player: 1, new_balance: 70 }))) {
        Ok(LedgerPlan::Reply(a)) => {
            assert!(a.accepted);
            assert_eq!(a.new_balance, 70);
            assert_eq!(a.reason, "duplicate (idempotent replay)");
        }
        _ => panic!("expected a replay"),
    }
    assert!(matches!(ledger_after_lookup::<&str>(&t, Ok(None)), Ok(LedgerPlan::ReadBalance)));
    assert_eq!(ledger_after_balance::<&str>(&t, Err("busy")).err(), Some("busy"));
    assert!(matches!(ledger_after_balance::<&str>(&t, Ok(100)), Ok(LedgerPlan::Commit(70))));
    match ledger_after_balance::<&str>(&t, Ok(10)) {
        Ok(LedgerPlan::Reply(a)) => {
            assert!(!a.accepted);
            assert_eq!(a.new_balance, 10);
            assert_eq!(a.reason, "insufficient funds");
        }
        _ => panic!("expected a refusal"),
    }
    assert_eq!(ledger_after_commit::<&str>(&t, 70, Err("full")).err(), Some("full"));
    let a = ledger_after_commit::<&str>(&t, 70, Ok(())).unwrap();
    assert!(a.accepted);
    assert_eq!(a.new_balance, 70);
}

#[test]
fn market_steps_pass_store_errors_through() {
    let t = trade(3, 10, 5, -20, 7);
    assert_eq!(market_after_lookup::<&str>(&t, Err("disk")).err(), Some("disk"));
    assert!(matches!(market_after_lookup::<&str>(&t, Ok(None)), Ok(MarketPlan::ReadState)));
    assert_eq!(market_after_state::<&str>(&t, Err("busy")).err(), Some("busy"));
    assert!(matches!(
        market_after_state::<&str>(&t, Ok((50, 9))),
        Ok(MarketPlan::Commit(30, 7))
    ));
    match market_after_state::<&str>(&t, Ok((5, 9))) {
        Ok(MarketPlan::Reply(a)) => {
            assert!(!a.accepted);
            assert_eq!((a.stock, a.price), (5, 9));
            assert_eq!(a.reason, "insufficient stock");
        }
        _ => panic!("expected a refusal"),
    }
    assert_eq!(market_after_commit::<&str>(&t, 30, 7, Err("full")).err(), Some("full"));
    let a = market_after_commit::<&str>(&t, 30, 7, Ok(())).unwrap();
    assert_eq!((a.accepted, a.stock, a.price), (true, 30, 7));
}
