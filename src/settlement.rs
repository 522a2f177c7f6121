//! The per-coin settlement engine: the decisions of the processing cycle
//! (share sync, block detection, reward distribution, confirmation) and of
//! the payout cycle. The calls to the pool source and the payout wallet are
//! made by the caller, which hands their results in.
use vstd::prelude::*;
use crate::ledger::{
    block_views,
    distinct_ids,
    height_order,
    is_waiting_block,
    undistributed_rows,
    BlockView,
    Database,
    LedgerError,
    LedgerView,
    lemma_evolves_refl,
    lemma_evolves_trans,
    now_unix,
};
use crate::model::Coin;
use crate::rewards::{already_distributed, apply_credits, block_credits, distribute_block, partly_credited};

verus! {

/// A share as a pool source reports it.
#[derive(Debug)]
pub struct ShareInfo {
    pub wallet_address: String,
    pub worker_name: String,
    pub difficulty: u64,
    pub block_height: Option<i64>,
    pub is_block: bool,
    /// Unix seconds, on the source's clock.
    pub timestamp: i64,
}

/// A block as a pool source reports it.
#[derive(Debug)]
pub struct BlockInfo {
    pub height: i64,
    pub hash: String,
    /// Reward in the coin's atomic units.
    pub reward: u64,
    pub finder_wallet: String,
    pub finder_worker: String,
    pub timestamp: i64,
}

/// The ledger after each reported share is recorded in turn at `now`;
/// `None` where one of the writes is refused.
pub open spec fn after_sync(v: LedgerView, coin: Coin, infos: Seq<ShareInfo>, now: i64) -> Option<
    LedgerView,
>
    decreases infos.len(),
{
    if infos.len() == 0 {
        Some(v)
    } else {
        match after_sync(v, coin, infos.drop_last(), now) {
            Some(w) => {
                let s = infos.last();
                if w.shares.len() < u64::MAX && w.balances_after_share(coin, s.wallet_address@, now) is Some {
                    Some(
                        w.after_record_share(
                            coin,
                            s.wallet_address@,
                            s.worker_name@,
                            s.difficulty,
                            s.block_height,
                            s.is_block,
                            now,
                        ),
                    )
                } else {
                    None
                }
            },
            None => None,
        }
    }
}

/// The largest of `since` and the reported timestamps.
pub open spec fn latest_timestamp(infos: Seq<ShareInfo>, since: i64) -> i64
    decreases infos.len(),
{
    if infos.len() == 0 {
        since
    } else {
        let m = latest_timestamp(infos.drop_last(), since);
        if infos.last().timestamp > m {
            infos.last().timestamp
        } else {
            m
        }
    }
}

/// The ledger after each reported block is recorded in turn at `now`;
/// `None` where one of the writes is refused.
pub open spec fn after_blocks(v: LedgerView, coin: Coin, infos: Seq<BlockInfo>, now: i64) -> Option<
    LedgerView,
>
    decreases infos.len(),
{
    if infos.len() == 0 {
        Some(v)
    } else {
        match after_blocks(v, coin, infos.drop_last(), now) {
            Some(w) => {
                let b = infos.last();
                if crate::ledger::find_block(w.blocks, b.hash@) is Some || w.blocks.len() < u64::MAX {
                    Some(
                        w.after_record_block(
                            coin,
                            b.height,
                            b.hash@,
                            b.reward,
                            b.finder_wallet@,
                            b.finder_worker@,
                            now,
                        ),
                    )
                } else {
                    None
                }
            },
            None => None,
        }
    }
}

/// The largest of `since` and the reported heights.
pub open spec fn highest_height(infos: Seq<BlockInfo>, since: i64) -> i64
    decreases infos.len(),
{
    if infos.len() == 0 {
        since
    } else {
        let m = highest_height(infos.drop_last(), since);
        if infos.last().height > m {
            infos.last().height
        } else {
            m
        }
    }
}

proof fn lemma_after_sync_none(v: LedgerView, coin: Coin, infos: Seq<ShareInfo>, now: i64, k: int)
    requires
        0 <= k <= infos.len(),
        after_sync(v, coin, infos.take(k), now) is None,
    ensures
        after_sync(v, coin, infos, now) is None,
    decreases infos.len(),
{
    if k < infos.len() {
        assert(infos.drop_last().take(k) =~= infos.take(k));
        lemma_after_sync_none(v, coin, infos.drop_last(), now, k);
    } else {
        assert(infos.take(k) =~= infos);
    }
}

proof fn lemma_after_blocks_none(v: LedgerView, coin: Coin, infos: Seq<BlockInfo>, now: i64, k: int)
    requires
        0 <= k <= infos.len(),
        after_blocks(v, coin, infos.take(k), now) is None,
    ensures
        after_blocks(v, coin, infos, now) is None,
    decreases infos.len(),
{
    if k < infos.len() {
        assert(infos.drop_last().take(k) =~= infos.take(k));
        lemma_after_blocks_none(v, coin, infos.drop_last(), now, k);
    } else {
        assert(infos.take(k) =~= infos);
    }
}

/// The settlement engine of one coin. The two cursors live in memory only:
/// a new engine starts from zero and asks its source for everything.
pub struct CoinProcessor {
    pub coin: Coin,
    /// Pending balances below this amount are not paid out.
    pub min_payout: u64,
    /// Highest block height seen.
    pub last_block_height: i64,
    /// Latest share timestamp seen.
    pub last_share_sync: i64,
}

impl CoinProcessor {
    pub fn new(coin: Coin, min_payout: u64) -> (r: CoinProcessor)
        ensures
            r.coin == coin,
            r.min_payout == min_payout,
            r.last_block_height == 0,
            r.last_share_sync == 0,
    {
        CoinProcessor { coin, min_payout, last_block_height: 0, last_share_sync: 0 }
    }

    /// Records the shares that the pool source reported since
    /// `last_share_sync`, at time `now`, and moves the cursor to the latest
    /// timestamp among them. The cursor never moves back, whatever the order
    /// of the shares; it moves only when every share was recorded.
    pub fn sync_shares_at(&mut self, db: &mut Database, shares: &Vec<ShareInfo>, now: i64) -> (r:
        Result<u64, LedgerError>)
        requires
            old(db)@.wf(),
        ensures
            final(db)@.wf(),
            old(db)@.evolves_to(final(db)@),
            final(self).coin == old(self).coin,
            final(self).min_payout == old(self).min_payout,
            final(self).last_block_height == old(self).last_block_height,
            final(self).last_share_sync >= old(self).last_share_sync,
            after_sync(old(db)@, old(self).coin, shares@, now) is Some ==> r is Ok,
            r matches Ok(n) ==> {
                &&& n == shares@.len()
                &&& after_sync(old(db)@, old(self).coin, shares@, now) == Some(final(db)@)
                &&& final(self).last_share_sync == latest_timestamp(shares@, old(self).last_share_sync)
            },
            r is Err ==> final(self).last_share_sync == old(self).last_share_sync,
    {
        let ghost v0 = db@;
        let coin = self.coin;
        let since = self.last_share_sync;
        let mut latest = since;
        let mut count: u64 = 0;
        let mut i: usize = 0;
        proof {
            assert(shares@.take(0) =~= Seq::<ShareInfo>::empty());
            lemma_evolves_refl(v0);
        }
        while i < shares.len()
            invariant
                0 <= i <= shares.len(),
                v0 == old(db)@,
                coin == old(self).coin,
                since == old(self).last_share_sync,
                *self == *old(self),
                db@.wf(),
                v0.evolves_to(db@),
                after_sync(v0, coin, shares@.take(i as int), now) == Some(db@),
                latest == latest_timestamp(shares@.take(i as int), since),
                latest >= since,
                count == i,
            decreases shares.len() - i,
        {
            let s = &shares[i];
            proof {
                assert(shares@.take(i + 1).drop_last() =~= shares@.take(i as int));
                assert(shares@.take(i + 1).last() == *s);
            }
            let ghost before = db@;
            match db.record_share_at(
                coin,
                s.wallet_address.as_str(),
                s.worker_name.as_str(),
                s.difficulty,
                s.block_height,
                s.is_block,
                now,
            ) {
                Ok(_) => {},
                Err(e) => {
                    proof {
                        lemma_after_sync_none(v0, coin, shares@, now, i + 1);
                    }
                    return Err(e);
                },
            }
            proof {
                lemma_evolves_trans(v0, before, db@);
            }
            count = count + 1;
            if s.timestamp > latest {
                latest = s.timestamp;
            }
            i = i + 1;
        }
        proof {
            assert(shares@.take(i as int) =~= shares@);
        }
        self.last_share_sync = latest;
        Ok(count)
    }

    /// `sync_shares_at` with the current time.
    pub fn sync_shares(&mut self, db: &mut Database, shares: &Vec<ShareInfo>) -> (r: Result<
        u64,
        LedgerError,
    >)
        requires
            old(db)@.wf(),
        ensures
            final(db)@.wf(),
            old(db)@.evolves_to(final(db)@),
            final(self).coin == old(self).coin,
            final(self).min_payout == old(self).min_payout,
            final(self).last_block_height == old(self).last_block_height,
            final(self).last_share_sync >= old(self).last_share_sync,
            r matches Ok(n) ==> n == shares@.len() && final(self).last_share_sync == latest_timestamp(
                shares@,
                old(self).last_share_sync,
            ),
            (forall|now: i64| #[trigger] after_sync(old(db)@, old(self).coin, shares@, now) is Some)
                ==> r is Ok,
            r is Ok ==> exists|now: i64|
                #[trigger] after_sync(old(db)@, old(self).coin, shares@, now) == Some(final(db)@),
            r is Err ==> final(self).last_share_sync == old(self).last_share_sync,
    {
        let now = now_unix();
        self.sync_shares_at(db, shares, now)
    }

    /// Records the blocks that the pool source reported above
    /// `last_block_height`, at time `now` (a hash already recorded is kept
    /// as it is), and moves the cursor to the highest height among them.
    pub fn process_blocks_at(&mut self, db: &mut Database, blocks: &Vec<BlockInfo>, now: i64) -> (r:
        Result<u64, LedgerError>)
        requires
            old(db)@.wf(),
        ensures
            final(db)@.wf(),
            old(db)@.evolves_to(final(db)@),
            final(self).coin == old(self).coin,
            final(self).min_payout == old(self).min_payout,
            final(self).last_share_sync == old(self).last_share_sync,
            final(self).last_block_height >= old(self).last_block_height,
            after_blocks(old(db)@, old(self).coin, blocks@, now) is Some ==> r is Ok,
            r matches Ok(n) ==> {
                &&& n == blocks@.len()
                &&& after_blocks(old(db)@, old(self).coin, blocks@, now) == Some(final(db)@)
                &&& final(self).last_block_height == highest_height(blocks@, old(self).last_block_height)
            },
            r is Err ==> final(self).last_block_height == old(self).last_block_height,
    {
        let ghost v0 = db@;
        let coin = self.coin;
        let since = self.last_block_height;
        let mut highest = since;
        let mut count: u64 = 0;
        let mut i: usize = 0;
        proof {
            assert(blocks@.take(0) =~= Seq::<BlockInfo>::empty());
            lemma_evolves_refl(v0);
        }
        while i < blocks.len()
            invariant
                0 <= i <= blocks.len(),
                v0 == old(db)@,
                coin == old(self).coin,
                since == old(self).last_block_height,
                *self == *old(self),
                db@.wf(),
                v0.evolves_to(db@),
                after_blocks(v0, coin, blocks@.take(i as int), now) == Some(db@),
                highest == highest_height(blocks@.take(i as int), since),
                highest >= since,
                count == i,
            decreases blocks.len() - i,
        {
            let b = &blocks[i];
            proof {
                assert(blocks@.take(i + 1).drop_last() =~= blocks@.take(i as int));
                assert(blocks@.take(i + 1).last() == *b);
            }
            let ghost before = db@;
            match db.record_block_at(
                coin,
                b.height,
                b.hash.as_str(),
                b.reward,
                b.finder_wallet.as_str(),
                b.finder_worker.as_str(),
                now,
            ) {
                Ok(_) => {},
                Err(e) => {
                    proof {
                        lemma_after_blocks_none(v0, coin, blocks@, now, i + 1);
                    }
                    return Err(e);
                },
            }
            proof {
                lemma_evolves_trans(v0, before, db@);
            }
            count = count + 1;
            if b.height > highest {
                highest = b.height;
            }
            i = i + 1;
        }
        proof {
            assert(blocks@.take(i as int) =~= blocks@);
        }
        self.last_block_height = highest;
        Ok(count)
    }

    /// Credits the reward of every block of this coin that is not yet
    /// distributed, lowest height first, and marks each one distributed. On
    /// success no block of the coin is left undistributed; with none to begin
    /// with nothing changes.
    pub fn distribute_rewards(&self, db: &mut Database) -> (r: Result<(), LedgerError>)
        requires
            old(db)@.wf(),
        ensures
            final(db)@.wf(),
            old(db)@.evolves_to(final(db)@),
            undistributed_rows(old(db)@.blocks, self.coin).len() == 0 ==> final(db)@ == old(db)@,
            distribution(old(db)@, distribution_order(old(db)@.blocks, self.coin)) is Some ==> r is Ok,
            r is Ok ==> distribution(old(db)@, distribution_order(old(db)@.blocks, self.coin)) == Some(
                final(db)@,
            ),
            r is Ok ==> all_distributed(final(db)@.blocks, self.coin),
            r is Err ==> exists|k: int|
                0 <= k < distribution_order(old(db)@.blocks, self.coin).len() && failed_at(
                    old(db)@,
                    final(db)@,
                    distribution_order(old(db)@.blocks, self.coin),
                    k,
                ),
    {
        let ghost v0 = db@;
        let coin = self.coin;
        let blocks = db.get_undistributed_blocks(coin);
        let ghost list = block_views(blocks@);
        proof {
            lemma_evolves_refl(v0);
            assert forall|i: int|
                0 <= i < v0.blocks.len() && v0.blocks[i].coin == coin && !v0.blocks[i].distributed implies exists|j: int|
                0 <= j < list.len() && #[trigger] list[j].id == i + 1 by {
                lemma_undistributed_contains(v0.blocks, coin, i);
                vstd::seq_lib::to_multiset_contains(undistributed_rows(v0.blocks, coin), v0.blocks[i]);
                vstd::seq_lib::to_multiset_contains(list, v0.blocks[i]);
                let j = choose|j: int| 0 <= j < list.len() && list[j] == v0.blocks[i];
                assert(list[j].id == i + 1);
            }
            vstd::seq_lib::to_multiset_len(list);
            vstd::seq_lib::to_multiset_len(undistributed_rows(v0.blocks, coin));
            assert(list.take(0) =~= Seq::<BlockView>::empty());
        }
        let mut k: usize = 0;
        while k < blocks.len()
            invariant
                0 <= k <= blocks.len(),
                v0 == old(db)@,
                coin == self.coin,
                list == block_views(blocks@),
                list.len() == undistributed_rows(v0.blocks, coin).len(),
                db@.wf(),
                v0.evolves_to(db@),
                db@.blocks.len() == v0.blocks.len(),
                list.len() == 0 ==> db@ == v0,
                list == distribution_order(v0.blocks, coin),
                distinct_ids(list),
                forall|a: int| 0 <= a < list.len() ==> is_waiting_block(v0.blocks, coin, #[trigger] list[a]),
                distribution(v0, list.take(k as int)) == Some(db@),
                forall|i: int|
                    0 <= i < db@.blocks.len() && db@.blocks[i].coin == coin && !db@.blocks[i].distributed
                        ==> exists|j: int| k <= j < list.len() && #[trigger] list[j].id == i + 1,
            decreases blocks.len() - k,
        {
            let ghost before = db@;
            proof {
                assert(list[k as int] == blocks@[k as int]@);
                assert(list.take(k + 1).drop_last() =~= list.take(k as int));
                assert(list.take(k + 1).last() == list[k as int]);
            }
            proof {
                lemma_distribution_frame(v0, list.take(k as int));
                assert(is_waiting_block(v0.blocks, coin, list[k as int]));
                let i = list[k as int].id - 1;
                assert forall|j: int| 0 <= j < list.take(k as int).len() implies list.take(k as int)[j].id
                    != i + 1 by {
                    assert(list.take(k as int)[j] == list[j]);
                }
                assert(db@.blocks[i] == v0.blocks[i]);
                assert(!already_distributed(db@, blocks@[k as int].id));
            }
            match distribute_block(db, &blocks[k]) {
                Ok(()) => {},
                Err(e) => {
                    proof {
                        lemma_evolves_trans(v0, before, db@);
                        lemma_distribution_none(v0, list, k + 1);
                        lemma_distribution_frame(v0, list.take(k as int));
                        assert forall|m: int| k <= m < list.len() implies !(#[trigger] db@.blocks[list[m].id
                            - 1]).distributed by {
                            assert(is_waiting_block(v0.blocks, coin, list[m]));
                            let i = list[m].id - 1;
                            assert forall|j: int| 0 <= j < list.take(k as int).len() implies list.take(
                                k as int,
                            )[j].id != i + 1 by {
                                assert(list.take(k as int)[j] == list[j]);
                            }
                            assert(db@.blocks[i] == before.blocks[i]);
                        }
                        assert(failed_at(v0, db@, list, k as int));
                    }
                    return Err(e);
                },
            }
            proof {
                lemma_evolves_trans(v0, before, db@);
                assert forall|i: int|
                    0 <= i < db@.blocks.len() && db@.blocks[i].coin == coin && !db@.blocks[i].distributed
                        implies exists|j: int| k + 1 <= j < list.len() && #[trigger] list[j].id == i + 1 by {
                    assert(!before.blocks[i].distributed);
                    assert(before.blocks[i].coin == coin);
                    let j = choose|j: int| k <= j < list.len() && #[trigger] list[j].id == i + 1;
                    if j == k {
                        assert(db@.blocks[i].distributed);
                    }
                    assert(k + 1 <= j);
                }
            }
            k = k + 1;
        }
        proof {
            assert(list.take(k as int) =~= list);
        }
        Ok(())
    }

    /// `process_blocks_at` with the current time.
    pub fn process_blocks(&mut self, db: &mut Database, blocks: &Vec<BlockInfo>) -> (r: Result<
        u64,
        LedgerError,
    >)
        requires
            old(db)@.wf(),
        ensures
            final(db)@.wf(),
            old(db)@.evolves_to(final(db)@),
            final(self).coin == old(self).coin,
            final(self).min_payout == old(self).min_payout,
            final(self).last_share_sync == old(self).last_share_sync,
            final(self).last_block_height >= old(self).last_block_height,
            r matches Ok(n) ==> n == blocks@.len() && final(self).last_block_height == highest_height(
                blocks@,
                old(self).last_block_height,
            ),
            (forall|now: i64| #[trigger] after_blocks(old(db)@, old(self).coin, blocks@, now) is Some)
                ==> r is Ok,
            r is Ok ==> exists|now: i64|
                #[trigger] after_blocks(old(db)@, old(self).coin, blocks@, now) == Some(final(db)@),
            r is Err ==> final(self).last_block_height == old(self).last_block_height,
    {
        let now = now_unix();
        self.process_blocks_at(db, blocks, now)
    }
}

/// The ledger after each block of `list` in turn has its credits applied
/// and is marked distributed; `None` where a credit overflows.
pub open spec fn distribution(v: LedgerView, list: Seq<BlockView>) -> Option<LedgerView>
    decreases list.len(),
{
    if list.len() == 0 {
        Some(v)
    } else {
        match distribution(v, list.drop_last()) {
            Some(w) => {
                let b = list.last();
                match apply_credits(w.balances, b.coin, block_credits(w.shares, b)) {
                    Some(bal) => Some(w.with_balances(bal).after_mark_distributed(b.id)),
                    None => None,
                }
            },
            None => None,
        }
    }
}

/// The blocks of `coin` waiting for distribution, in the order a pass
/// takes them: lowest height first, equal heights in ledger order.
pub open spec fn distribution_order(blocks: Seq<BlockView>, coin: Coin) -> Seq<BlockView> {
    height_order(undistributed_rows(blocks, coin))
}

proof fn lemma_distribution_none(v: LedgerView, list: Seq<BlockView>, k: int)
    requires
        0 <= k <= list.len(),
        distribution(v, list.take(k)) is None,
    ensures
        distribution(v, list) is None,
    decreases list.len(),
{
    if k < list.len() {
        assert(list.drop_last().take(k) =~= list.take(k));
        lemma_distribution_none(v, list.drop_last(), k);
    } else {
        assert(list.take(k) =~= list);
    }
}

/// A distribution touches only the blocks it lists.
proof fn lemma_distribution_frame(v: LedgerView, list: Seq<BlockView>)
    requires
        distribution(v, list) is Some,
    ensures
        ({
            let d = distribution(v, list)->0;
            &&& d.blocks.len() == v.blocks.len()
            &&& d.shares == v.shares
            &&& d.payments == v.payments
            &&& forall|i: int|
                0 <= i < v.blocks.len() && (forall|j: int| 0 <= j < list.len() ==> list[j].id != i + 1)
                    ==> #[trigger] d.blocks[i] == v.blocks[i]
        }),
    decreases list.len(),
{
    if list.len() > 0 {
        let rest = list.drop_last();
        lemma_distribution_frame(v, rest);
        let w = distribution(v, rest)->0;
        let d = distribution(v, list)->0;
        assert forall|i: int|
            0 <= i < v.blocks.len() && (forall|j: int| 0 <= j < list.len() ==> list[j].id != i + 1)
                implies #[trigger] d.blocks[i] == v.blocks[i] by {
            assert(forall|j: int| 0 <= j < rest.len() ==> rest[j] == list[j]);
            assert(list[list.len() - 1].id != i + 1);
            assert(d.blocks[i] == w.blocks[i]);
        }
    }
}

/// A pass over `list` stopped at block `k`: the blocks before it were
/// distributed as `distribution` says, block `k` received only a proper
/// prefix of its credits, and block `k` and every block after it are still
/// undistributed (so no later block was credited).
pub open spec fn failed_at(v: LedgerView, f: LedgerView, list: Seq<BlockView>, k: int) -> bool {
    &&& distribution(v, list.take(k)) is Some
    &&& f.blocks == distribution(v, list.take(k))->0.blocks
    &&& partly_credited(
        distribution(v, list.take(k))->0.balances,
        list[k].coin,
        block_credits(distribution(v, list.take(k))->0.shares, list[k]),
        f.balances,
    )
    &&& f.shares == v.shares
    &&& f.payments == v.payments
    &&& forall|m: int| k <= m < list.len() ==> !(#[trigger] f.blocks[list[m].id - 1]).distributed
}

/// Every block of `coin` has had its reward distributed.
pub open spec fn all_distributed(blocks: Seq<BlockView>, coin: Coin) -> bool {
    forall|i: int| 0 <= i < blocks.len() && blocks[i].coin == coin ==> blocks[i].distributed
}

proof fn lemma_undistributed_contains(rows: Seq<BlockView>, coin: Coin, i: int)
    requires
        0 <= i < rows.len(),
        rows[i].coin == coin,
        !rows[i].distributed,
    ensures
        undistributed_rows(rows, coin).contains(rows[i]),
    decreases rows.len(),
{
    let rest = undistributed_rows(rows.drop_last(), coin);
    if i == rows.len() - 1 {
        assert(undistributed_rows(rows, coin).last() == rows[i]);
    } else {
        lemma_undistributed_contains(rows.drop_last(), coin, i);
        let j = choose|j: int| 0 <= j < rest.len() && rest[j] == rows[i];
        assert(undistributed_rows(rows, coin)[j] == rows[i]);
    }
}

/// Distributing twice credits once: after a distribution pass over a coin
/// has succeeded, no block of that coin is left to credit, so a second pass
/// finds nothing and leaves the ledger as it is.
pub proof fn lemma_distribution_settles(blocks: Seq<BlockView>, coin: Coin)
    requires
        all_distributed(blocks, coin),
    ensures
        undistributed_rows(blocks, coin).len() == 0,
    decreases blocks.len(),
{
    if blocks.len() > 0 {
        lemma_distribution_settles(blocks.drop_last(), coin);
        assert(blocks.last() == blocks[blocks.len() - 1]);
    }
}


} // verus!
