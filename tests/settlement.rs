use pool_payments::ledger::{Database, LedgerError};
use pool_payments::model::{classify_confirmations, Coin, PaymentStatus, TxStatus};
use pool_payments::payout::{
    apply_tx_status_at, covers_all, payable_amount, payees, payout_mode, record_batch_payment,
    record_send_outcome, total_payable, PayoutMode, PayoutQueue,
};
use pool_payments::rewards::{distribute_block, lookback_start, LOOKBACK_SECS};
use pool_payments::settlement::{BlockInfo, CoinProcessor, ShareInfo};

fn share(addr: &str, ts: i64) -> ShareInfo {
    ShareInfo {
        wallet_address: addr.to_string(),
        worker_name: "rig".to_string(),
        difficulty: 1000,
        block_height: None,
        is_block: false,
        timestamp: ts,
    }
}

fn pending_of(db: &Database, coin: Coin, addr: &str) -> u64 {
    db.get_miner_balance(coin, addr).map(|b| b.pending_balance).unwrap_or(0)
}

#[test]
fn proportional_reward_thirty_seventy() {
    let mut db = Database::new();
    for _ in 0..30 {
        db.record_share_at(Coin::Xmr, "minerA", "w", 1, None, false, 10_000).unwrap();
    }
    for _ in 0..70 {
        db.record_share_at(Coin::Xmr, "minerB", "w", 1, None, false, 10_500).unwrap();
    }
    db.record_block_at(Coin::Xmr, 5, "hash5", 100, "finder", "w", 11_000).unwrap();
    let p = CoinProcessor::new(Coin::Xmr, 1);
    p.distribute_rewards(&mut db).unwrap();
    assert_eq!(pending_of(&db, Coin::Xmr, "minerA"), 30);
    assert_eq!(pending_of(&db, Coin::Xmr, "minerB"), 70);
    assert_eq!(pending_of(&db, Coin::Xmr, "finder"), 0);
    assert!(db.get_miner_balance(Coin::Xmr, "finder").is_none());
    assert!(db.get_undistributed_blocks(Coin::Xmr).is_empty());
}

#[test]
fn empty_window_pays_finder_everything() {
    let mut db = Database::new();
    // a share long before the window does not count
    db.record_share_at(Coin::Xmr, "old", "w", 1, None, false, 1_000).unwrap();
    db.record_block_at(Coin::Xmr, 9, "hash9", 100, "finder", "w", 100_000).unwrap();
    let p = CoinProcessor::new(Coin::Xmr, 1);
    p.distribute_rewards(&mut db).unwrap();
    assert_eq!(pending_of(&db, Coin::Xmr, "finder"), 100);
    assert_eq!(pending_of(&db, Coin::Xmr, "old"), 0);
}

#[test]
fn rounding_remainder_goes_to_finder() {
    let mut db = Database::new();
    for addr in ["a", "b", "c"] {
        db.record_share_at(Coin::Aleo, addr, "w", 1, None, false, 500).unwrap();
    }
    db.record_block_at(Coin::Aleo, 1, "h", 100, "a", "w", 600).unwrap();
    let blocks = db.get_undistributed_blocks(Coin::Aleo);
    distribute_block(&mut db, &blocks[0]).unwrap();
    // 100 / 3 = 33 each, 1 left over for the finder "a"
    assert_eq!(pending_of(&db, Coin::Aleo, "a"), 34);
    assert_eq!(pending_of(&db, Coin::Aleo, "b"), 33);
    assert_eq!(pending_of(&db, Coin::Aleo, "c"), 33);
}

#[test]
fn distribution_ignores_other_coins_and_window_edges() {
    let mut db = Database::new();
    db.record_share_at(Coin::Xtm, "x", "w", 1, None, false, 5_000).unwrap();
    db.record_share_at(Coin::Xmr, "edge", "w", 1, None, false, 5_000 - LOOKBACK_SECS).unwrap();
    db.record_share_at(Coin::Xmr, "late", "w", 1, None, false, 5_001).unwrap();
    db.record_block_at(Coin::Xmr, 2, "h2", 10, "finder", "w", 5_000).unwrap();
    CoinProcessor::new(Coin::Xmr, 1).distribute_rewards(&mut db).unwrap();
    assert_eq!(pending_of(&db, Coin::Xmr, "edge"), 10);
    assert_eq!(pending_of(&db, Coin::Xmr, "late"), 0);
    assert_eq!(pending_of(&db, Coin::Xtm, "x"), 0);
    assert_eq!(lookback_start(5_000), 1_400);
    assert_eq!(lookback_start(i64::MIN), i64::MIN);
}

#[test]
fn second_distribution_credits_nothing() {
    let mut db = Database::new();
    db.record_share_at(Coin::Xmr, "m", "w", 1, None, false, 100).unwrap();
    let id = db.record_block_at(Coin::Xmr, 1, "h", 50, "m", "w", 200).unwrap();
    let p = CoinProcessor::new(Coin::Xmr, 1);
    p.distribute_rewards(&mut db).unwrap();
    p.distribute_rewards(&mut db).unwrap();
    assert_eq!(pending_of(&db, Coin::Xmr, "m"), 50);
    db.mark_block_distributed(id);
    db.mark_block_distributed(id);
    assert!(db.get_undistributed_blocks(Coin::Xmr).is_empty());
}

#[test]
fn same_block_hash_recorded_once() {
    let mut db = Database::new();
    let a = db.record_block_at(Coin::Xmr, 7, "dup", 10, "f", "w", 1).unwrap();
    let b = db.record_block_at(Coin::Xmr, 7, "dup", 99, "g", "w", 2).unwrap();
    assert_eq!(a, b);
    let blocks = db.get_undistributed_blocks(Coin::Xmr);
    assert_eq!(blocks.len(), 1);
    assert_eq!(blocks[0].reward, 10);
    assert_eq!(blocks[0].finder_wallet, "f");
}

#[test]
fn share_watermark_takes_the_maximum() {
    let mut db = Database::new();
    let mut p = CoinProcessor::new(Coin::Xtm, 1);
    let shares = vec![share("a", 300), share("b", 900), share("a", 500)];
    assert_eq!(p.sync_shares_at(&mut db, &shares, 1_000), Ok(3));
    assert_eq!(p.last_share_sync, 900);
    let older = vec![share("a", 100)];
    assert_eq!(p.sync_shares_at(&mut db, &older, 1_001), Ok(1));
    assert_eq!(p.last_share_sync, 900);
    let bal = db.get_miner_balance(Coin::Xtm, "a").unwrap();
    assert_eq!(bal.total_shares, 3);
    assert_eq!(bal.last_share, Some(1_001));
    assert_eq!(db.get_total_shares_in_range(Coin::Xtm, 0, 2_000), 4);
    assert_eq!(db.get_share_count_in_range(Coin::Xtm, "b", 0, 2_000), 1);
    assert_eq!(db.get_miners_in_range(Coin::Xtm, 0, 2_000), vec!["a".to_string(), "b".to_string()]);
}

#[test]
fn block_watermark_takes_the_maximum() {
    let mut db = Database::new();
    let mut p = CoinProcessor::new(Coin::Aleo, 1);
    let block = |h: i64, hash: &str| BlockInfo {
        height: h,
        hash: hash.to_string(),
        reward: 5,
        finder_wallet: "f".to_string(),
        finder_worker: "w".to_string(),
        timestamp: 0,
    };
    let blocks = vec![block(12, "b12"), block(10, "b10"), block(12, "b12")];
    assert_eq!(p.process_blocks_at(&mut db, &blocks, 50), Ok(3));
    assert_eq!(p.last_block_height, 12);
    assert_eq!(db.get_undistributed_blocks(Coin::Aleo).len(), 2);
    assert_eq!(p.process_blocks_at(&mut db, &vec![], 60), Ok(0));
    assert_eq!(p.last_block_height, 12);
}

#[test]
fn degraded_payout_pays_largest_that_fit() {
    let mut db = Database::new();
    db.add_pending_balance(Coin::Xmr, "m50", 50).unwrap();
    db.add_pending_balance(Coin::Xmr, "m70", 70).unwrap();
    db.add_pending_balance(Coin::Xmr, "m40", 40).unwrap();
    let payable = db.get_payable_balances(Coin::Xmr, 1);
    assert_eq!(total_payable(&payable), 160);
    assert!(!covers_all(100, &payable));
    let mut q = PayoutQueue::new(&payable, 100);
    let amounts: Vec<u64> = q.payees.iter().map(|p| p.1).collect();
    assert_eq!(amounts, vec![70, 50, 40]);
    let mut paid = Vec::new();
    while let Some((addr, amount)) = q.next_payee() {
        q.record_outcome(amount, true);
        paid.push(addr);
    }
    assert_eq!(paid, vec!["m70".to_string()]);
    assert_eq!(q.remaining, 30);
}

#[test]
fn degraded_payout_moves_on_after_a_failed_send() {
    let mut db = Database::new();
    db.add_pending_balance(Coin::Xmr, "a", 70).unwrap();
    db.add_pending_balance(Coin::Xmr, "b", 50).unwrap();
    let payable = db.get_payable_balances(Coin::Xmr, 1);
    let mut q = PayoutQueue::new(&payable, 100);
    let first = q.next_payee().unwrap();
    assert_eq!(first, ("a".to_string(), 70));
    // the send failed: nothing is taken from what is left
    let second = q.next_payee().unwrap();
    assert_eq!(second, ("b".to_string(), 50));
    q.record_outcome(50, true);
    assert_eq!(q.next_payee(), None);
}

#[test]
fn payable_threshold_filters_balances() {
    let mut db = Database::new();
    db.add_pending_balance(Coin::Xmr, "small", 5).unwrap();
    db.add_pending_balance(Coin::Xmr, "big", 500).unwrap();
    db.add_pending_balance(Coin::Xtm, "other", 900).unwrap();
    let payable = db.get_payable_balances(Coin::Xmr, 100);
    assert_eq!(payable.len(), 1);
    assert_eq!(payable[0].wallet_address, "big");
    assert_eq!(db.get_payable_balances(Coin::Xmr, 0).len(), 2);
    assert_eq!(payable_amount(&payable, "big"), 500);
    assert_eq!(payable_amount(&payable, "small"), 0);
    assert!(covers_all(500, &payable));
}

#[test]
fn confirmation_settles_balance_once() {
    let mut db = Database::new();
    db.add_pending_balance(Coin::Xmr, "m", 100).unwrap();
    db.create_payment_with_id("p1", Coin::Xmr, "m", 100, 10).unwrap();
    db.update_payment_status_at("p1", PaymentStatus::Processing, Some("tx1"), None, 11).unwrap();

    let status = classify_confirmations(2, 10);
    assert_eq!(status, TxStatus::Confirming { confirmations: 2 });
    assert_eq!(apply_tx_status_at(&mut db, "p1", &status, 12), Ok(false));
    let open = db.get_pending_payments(Coin::Xmr);
    assert_eq!(open.len(), 1);
    assert_eq!(open[0].status, PaymentStatus::Processing);
    assert_eq!(open[0].tx_hash.as_deref(), Some("tx1"));
    assert_eq!(pending_of(&db, Coin::Xmr, "m"), 100);

    let status = classify_confirmations(10, 10);
    assert_eq!(status, TxStatus::Confirmed);
    assert_eq!(apply_tx_status_at(&mut db, "p1", &status, 13), Ok(true));
    let bal = db.get_miner_balance(Coin::Xmr, "m").unwrap();
    assert_eq!(bal.pending_balance, 0);
    assert_eq!(bal.total_paid, 100);
    assert_eq!(bal.last_payment, Some(13));
    assert!(db.get_pending_payments(Coin::Xmr).is_empty());

    // a settled payment does not move again, and pays nothing twice
    assert_eq!(apply_tx_status_at(&mut db, "p1", &TxStatus::Confirmed, 14), Err(LedgerError::InvalidTransition));
    assert_eq!(
        db.update_payment_status_at("p1", PaymentStatus::Pending, None, None, 15),
        Err(LedgerError::InvalidTransition)
    );
    let bal = db.get_miner_balance(Coin::Xmr, "m").unwrap();
    assert_eq!(bal.total_paid, 100);
    let history = db.get_miner_payments(Coin::Xmr, "m", 10);
    assert_eq!(history[0].status, PaymentStatus::Confirmed);
    assert_eq!(history[0].confirmed_at, Some(13));
}

#[test]
fn failed_transaction_leaves_balance_pending() {
    let mut db = Database::new();
    db.add_pending_balance(Coin::Xtm, "m", 40).unwrap();
    db.create_payment_with_id("p", Coin::Xtm, "m", 40, 1).unwrap();
    db.update_payment_status_at("p", PaymentStatus::Processing, Some("t"), None, 2).unwrap();
    let st = TxStatus::Failed("rejected".to_string());
    assert_eq!(apply_tx_status_at(&mut db, "p", &st, 3), Ok(false));
    let h = db.get_miner_payments(Coin::Xtm, "m", -1);
    assert_eq!(h[0].status, PaymentStatus::Failed);
    assert_eq!(h[0].error_message.as_deref(), Some("rejected"));
    assert_eq!(pending_of(&db, Coin::Xtm, "m"), 40);
    assert_eq!(apply_tx_status_at(&mut db, "p", &TxStatus::NotFound, 4), Ok(false));
    assert_eq!(apply_tx_status_at(&mut db, "p", &TxStatus::Pending, 4), Ok(false));
}

#[test]
fn pending_never_goes_below_zero() {
    let mut db = Database::new();
    db.add_pending_balance(Coin::Xmr, "m", 30).unwrap();
    db.create_payment_with_id("a", Coin::Xmr, "m", 30, 1).unwrap();
    db.create_payment_with_id("b", Coin::Xmr, "m", 30, 1).unwrap();
    db.update_payment_status_at("a", PaymentStatus::Confirmed, None, None, 2).unwrap();
    db.update_payment_status_at("b", PaymentStatus::Confirmed, None, None, 3).unwrap();
    let bal = db.get_miner_balance(Coin::Xmr, "m").unwrap();
    assert_eq!(bal.pending_balance, 0);
    assert_eq!(bal.total_paid, 60);
}

#[test]
fn duplicate_payment_id_is_refused() {
    let mut db = Database::new();
    assert!(db.create_payment_with_id("x", Coin::Aleo, "m", 1, 0).is_ok());
    assert_eq!(db.create_payment_with_id("x", Coin::Aleo, "n", 2, 0), Err(LedgerError::DuplicatePaymentId));
}

#[test]
fn unknown_payment_update_is_ignored() {
    let mut db = Database::new();
    assert_eq!(db.update_payment_status_at("none", PaymentStatus::Confirmed, None, None, 1), Ok(()));
}

#[test]
fn pending_overflow_is_refused() {
    let mut db = Database::new();
    db.add_pending_balance(Coin::Xmr, "m", u64::MAX).unwrap();
    assert_eq!(db.add_pending_balance(Coin::Xmr, "m", 1), Err(LedgerError::Overflow));
    assert_eq!(pending_of(&db, Coin::Xmr, "m"), u64::MAX);
}

#[test]
fn batch_payment_records_processing_rows() {
    let mut db = Database::new();
    db.add_pending_balance(Coin::Xmr, "a", 10).unwrap();
    db.add_pending_balance(Coin::Xmr, "b", 20).unwrap();
    let payable = db.get_payable_balances(Coin::Xmr, 1);
    let sent = vec![("a".to_string(), "tx".to_string()), ("b".to_string(), "tx".to_string())];
    let ids = vec!["id-a".to_string(), "id-b".to_string()];
    assert_eq!(record_batch_payment(&mut db, Coin::Xmr, &payable, &sent, &ids[..1].to_vec()), Err(LedgerError::Inconsistent));
    assert_eq!(record_batch_payment(&mut db, Coin::Xmr, &payable, &sent, &ids), Ok(2));
    let open = db.get_pending_payments(Coin::Xmr);
    assert_eq!(open.len(), 2);
    assert_eq!(open[0].amount, 10);
    assert_eq!(open[1].amount, 20);
    assert!(open.iter().all(|p| p.status == PaymentStatus::Processing));
    assert!(open.iter().all(|p| p.tx_hash.as_deref() == Some("tx")));
    assert_ne!(open[0].id, open[1].id);
    assert_eq!(open[0].id, "id-a");
    assert_eq!(record_batch_payment(&mut db, Coin::Xmr, &payable, &sent, &ids), Err(LedgerError::DuplicatePaymentId));
    assert_eq!(pending_of(&db, Coin::Xmr, "a"), 10);
}

#[test]
fn single_send_outcomes() {
    let mut db = Database::new();
    let ok_id = db.create_payment("ok", Coin::Aleo, "m", 5).unwrap();
    let bad_id = db.create_payment("bad", Coin::Aleo, "m", 6).unwrap();
    assert_eq!(db.create_payment("ok", Coin::Aleo, "m", 7), Err(LedgerError::DuplicatePaymentId));
    assert_eq!(record_send_outcome(&mut db, &ok_id, &Ok("tx9".to_string())), Ok(true));
    assert_eq!(record_send_outcome(&mut db, &bad_id, &Err("no funds".to_string())), Ok(false));
    let h = db.get_miner_payments(Coin::Aleo, "m", -1);
    assert_eq!(h.len(), 2);
    let bad = h.iter().find(|p| p.id == bad_id).unwrap();
    assert_eq!(bad.status, PaymentStatus::Failed);
    assert_eq!(bad.error_message.as_deref(), Some("no funds"));
    assert_eq!(db.get_miner_payments(Coin::Aleo, "m", 1).len(), 1);
    let open = db.get_pending_payments(Coin::Aleo);
    assert_eq!(open.len(), 1);
    assert_eq!(open[0].tx_hash.as_deref(), Some("tx9"));
}

#[test]
fn clock_stamps_recent_time() {
    let mut db = Database::new();
    db.record_share(Coin::Xmr, "m", "w", 1, Some(3), true).unwrap();
    let bal = db.get_miner_balance(Coin::Xmr, "m").unwrap();
    assert!(bal.last_share.unwrap() > 1_600_000_000);
    db.record_block(Coin::Xmr, 3, "h", 1, "m", "w").unwrap();
    let id = db.create_payment("c1", Coin::Xmr, "m", 1).unwrap();
    db.update_payment_status(&id, PaymentStatus::Confirmed, None, None).unwrap();
    let h = db.get_miner_payments(Coin::Xmr, "m", 5);
    assert!(h[0].confirmed_at.unwrap() > 1_600_000_000);
}

#[test]
fn miner_payments_newest_first_with_limit() {
    let mut db = Database::new();
    for (i, id) in ["p1", "p2", "p3"].iter().enumerate() {
        db.create_payment_with_id(id, Coin::Xmr, "m", i as u64, i as i64).unwrap();
    }
    db.create_payment_with_id("q", Coin::Xmr, "other", 9, 9).unwrap();
    let h = db.get_miner_payments(Coin::Xmr, "m", 2);
    let ids: Vec<&str> = h.iter().map(|p| p.id.as_str()).collect();
    assert_eq!(ids, vec!["p3", "p2"]);
    assert_eq!(db.get_miner_payments(Coin::Xmr, "m", 0).len(), 0);
    assert_eq!(db.get_miner_payments(Coin::Xmr, "m", -1).len(), 3);
}

#[test]
fn undistributed_blocks_come_lowest_height_first() {
    let mut db = Database::new();
    db.record_block_at(Coin::Xmr, 30, "c", 1, "f", "w", 1).unwrap();
    db.record_block_at(Coin::Xmr, 10, "a", 1, "f", "w", 1).unwrap();
    db.record_block_at(Coin::Xtm, 5, "x", 1, "f", "w", 1).unwrap();
    db.record_block_at(Coin::Xmr, 20, "b", 1, "f", "w", 1).unwrap();
    let heights: Vec<i64> = db.get_undistributed_blocks(Coin::Xmr).iter().map(|b| b.block_height).collect();
    assert_eq!(heights, vec![10, 20, 30]);
}

#[test]
fn failed_credit_leaves_block_and_later_blocks_undistributed() {
    let mut db = Database::new();
    db.add_pending_balance(Coin::Xmr, "full", u64::MAX).unwrap();
    db.record_share_at(Coin::Xmr, "full", "w", 1, None, false, 100).unwrap();
    db.record_block_at(Coin::Xmr, 1, "low", 10, "f", "w", 200).unwrap();
    db.record_block_at(Coin::Xmr, 2, "high", 10, "f", "w", 200).unwrap();
    let p = CoinProcessor::new(Coin::Xmr, 1);
    assert_eq!(p.distribute_rewards(&mut db), Err(LedgerError::Overflow));
    let heights: Vec<i64> = db.get_undistributed_blocks(Coin::Xmr).iter().map(|b| b.block_height).collect();
    assert_eq!(heights, vec![1, 2]);
    assert!(db.get_miner_balance(Coin::Xmr, "f").is_none());
}

#[test]
fn equal_heights_keep_ledger_order() {
    let mut db = Database::new();
    db.record_block_at(Coin::Aleo, 7, "first", 1, "f", "w", 1).unwrap();
    db.record_block_at(Coin::Aleo, 3, "low", 1, "f", "w", 1).unwrap();
    db.record_block_at(Coin::Aleo, 7, "second", 1, "f", "w", 1).unwrap();
    let hashes: Vec<String> = db.get_undistributed_blocks(Coin::Aleo).iter().map(|b| b.block_hash.clone()).collect();
    assert_eq!(hashes, vec!["low".to_string(), "first".to_string(), "second".to_string()]);
}

#[test]
fn equal_amounts_keep_ledger_order_in_queue() {
    let mut db = Database::new();
    db.add_pending_balance(Coin::Xtm, "a", 10).unwrap();
    db.add_pending_balance(Coin::Xtm, "b", 20).unwrap();
    db.add_pending_balance(Coin::Xtm, "c", 10).unwrap();
    let payable = db.get_payable_balances(Coin::Xtm, 1);
    let q = PayoutQueue::new(&payable, 5);
    let order: Vec<&str> = q.payees.iter().map(|p| p.0.as_str()).collect();
    assert_eq!(order, vec!["b", "a", "c"]);
}

#[test]
fn payout_mode_and_outcomes() {
    let mut db = Database::new();
    db.add_pending_balance(Coin::Xmr, "a", 60).unwrap();
    db.add_pending_balance(Coin::Xmr, "b", 40).unwrap();
    let payable = db.get_payable_balances(Coin::Xmr, 1);
    assert_eq!(payout_mode(100, &payable), PayoutMode::Batch);
    assert_eq!(payout_mode(99, &payable), PayoutMode::LargestFirst);
    assert_eq!(payees(&payable), vec![("a".to_string(), 60), ("b".to_string(), 40)]);
    let mut q = PayoutQueue::new(&payable, 99);
    let (_, amount) = q.next_payee().unwrap();
    q.record_outcome(amount, false);
    assert_eq!(q.remaining, 99);
    let (_, amount) = q.next_payee().unwrap();
    q.record_outcome(amount, true);
    assert_eq!(q.remaining, 59);
}

#[test]
fn clocked_sync_and_block_detection_succeed() {
    let mut db = Database::new();
    let mut p = CoinProcessor::new(Coin::Xmr, 1);
    p.last_share_sync = 50;
    assert_eq!(p.sync_shares(&mut db, &vec![share("a", 200), share("b", 100)]), Ok(2));
    assert_eq!(p.last_share_sync, 200);
    let blocks = vec![BlockInfo {
        height: 4,
        hash: "h4".to_string(),
        reward: 9,
        finder_wallet: "a".to_string(),
        finder_worker: "w".to_string(),
        timestamp: 0,
    }];
    assert_eq!(p.process_blocks(&mut db, &blocks), Ok(1));
    assert_eq!(p.last_block_height, 4);
}

#[test]
fn ledger_rows_restore_into_an_equal_ledger() {
    let mut db = Database::new();
    db.record_share_at(Coin::Xmr, "m", "w", 3, Some(5), false, 10).unwrap();
    db.add_pending_balance(Coin::Xmr, "m", 70).unwrap();
    db.create_payment_with_id("p", Coin::Xmr, "m", 70, 11).unwrap();
    db.record_block_at(Coin::Xmr, 5, "h", 9, "m", "w", 12).unwrap();

    let mut copy = Database::new();
    for s in db.all_shares() {
        copy.restore_share(s).unwrap();
    }
    for b in db.all_balances() {
        copy.restore_balance(b).unwrap();
    }
    for p in db.all_payments() {
        copy.restore_payment(p).unwrap();
    }
    for b in db.all_blocks() {
        copy.restore_block(b).unwrap();
    }
    assert_eq!(copy.get_miner_balance(Coin::Xmr, "m").unwrap().pending_balance, 70);
    assert_eq!(copy.get_pending_payments(Coin::Xmr)[0].id, "p");
    assert_eq!(copy.get_undistributed_blocks(Coin::Xmr)[0].block_hash, "h");
    assert_eq!(copy.get_total_shares_in_range(Coin::Xmr, 0, 100), 1);

    // a repeated key or an out-of-order id is refused
    assert_eq!(copy.restore_balance(db.all_balances().remove(0)), Err(LedgerError::Inconsistent));
    assert_eq!(copy.restore_payment(db.all_payments().remove(0)), Err(LedgerError::Inconsistent));
    assert_eq!(copy.restore_share(db.all_shares().remove(0)), Err(LedgerError::Inconsistent));
    assert_eq!(copy.restore_block(db.all_blocks().remove(0)), Err(LedgerError::Inconsistent));
}

#[test]
fn payment_history_follows_created_at() {
    let mut db = Database::new();
    db.create_payment_with_id("late", Coin::Xmr, "m", 1, 300).unwrap();
    db.create_payment_with_id("early", Coin::Xmr, "m", 2, 100).unwrap();
    db.create_payment_with_id("tie", Coin::Xmr, "m", 3, 300).unwrap();
    let open: Vec<String> = db.get_pending_payments(Coin::Xmr).iter().map(|p| p.id.clone()).collect();
    assert_eq!(open, vec!["early".to_string(), "late".to_string(), "tie".to_string()]);
    let history: Vec<String> = db.get_miner_payments(Coin::Xmr, "m", -1).iter().map(|p| p.id.clone()).collect();
    assert_eq!(history, vec!["late".to_string(), "tie".to_string(), "early".to_string()]);
    let newest: Vec<String> = db.get_miner_payments(Coin::Xmr, "m", 1).iter().map(|p| p.id.clone()).collect();
    assert_eq!(newest, vec!["late".to_string()]);
}

#[test]
fn distributing_a_distributed_block_again_credits_nothing() {
    let mut db = Database::new();
    db.record_block_at(Coin::Xmr, 1, "h", 100, "f", "w", 10).unwrap();
    let block = db.get_undistributed_blocks(Coin::Xmr).remove(0);
    distribute_block(&mut db, &block).unwrap();
    distribute_block(&mut db, &block).unwrap();
    assert_eq!(pending_of(&db, Coin::Xmr, "f"), 100);
    assert!(db.is_block_distributed(block.id));
}
