//! Proportional reward distribution over a fixed lookback window.
use vstd::prelude::*;
use crate::ledger::{
    LedgerView,
    credit_rows,
    miner_window_count,
    string_views,
    window_miners,
    BalanceView,
    BlockFound,
    BlockView,
    Database,
    LedgerError,
    ShareView,
};
use crate::model::Coin;
use crate::payout::pending_sum;

verus! {

/// Shares up to this many seconds before a block count towards its reward.
pub const LOOKBACK_SECS: i64 = 3600;

/// Start of the window of a block recorded at `timestamp`.
pub open spec fn window_start(timestamp: i64) -> i64 {
    if timestamp >= i64::MIN + LOOKBACK_SECS {
        (timestamp - LOOKBACK_SECS) as i64
    } else {
        timestamp
    }
}

/// Each miner of the window with its share count there.
pub open spec fn window_tally(shares: Seq<ShareView>, coin: Coin, from: i64, to: i64) -> Seq<
    (Seq<char>, nat),
> {
    window_miners(shares, coin, from, to).map_values(
        |m: Seq<char>| (m, miner_window_count(shares, coin, m, from, to)),
    )
}

/// Sum of the counts of a tally.
pub open spec fn tally_total(t: Seq<(Seq<char>, nat)>) -> nat
    decreases t.len(),
{
    if t.len() == 0 {
        0
    } else {
        tally_total(t.drop_last()) + t.last().1
    }
}

/// One credit per miner with shares: `reward * count / total`, rounded down.
pub open spec fn proportional_credits(t: Seq<(Seq<char>, nat)>, reward: u64, total: nat) -> Seq<
    (Seq<char>, u64),
>
    decreases t.len(),
{
    if t.len() == 0 {
        Seq::empty()
    } else {
        let rest = proportional_credits(t.drop_last(), reward, total);
        if t.last().1 > 0 {
            rest.push((t.last().0, ((reward as nat) * t.last().1 / total) as u64))
        } else {
            rest
        }
    }
}

/// Sum of the amounts of a list of credits.
pub open spec fn credit_sum(c: Seq<(Seq<char>, u64)>) -> nat
    decreases c.len(),
{
    if c.len() == 0 {
        0
    } else {
        credit_sum(c.drop_last()) + (c.last().1 as nat)
    }
}

/// The credits issued for block `b` given the share log: with no shares in
/// the window the finder gets the whole reward; otherwise each miner gets
/// its proportional part and the finder gets what rounding left over.
pub open spec fn block_credits(shares: Seq<ShareView>, b: BlockView) -> Seq<(Seq<char>, u64)> {
    let t = window_tally(shares, b.coin, window_start(b.timestamp), b.timestamp);
    let total = tally_total(t);
    if total == 0 {
        seq![(b.finder, b.reward)]
    } else {
        let pc = proportional_credits(t, b.reward, total);
        if credit_sum(pc) < b.reward {
            pc.push((b.finder, (b.reward - credit_sum(pc)) as u64))
        } else {
            pc
        }
    }
}

/// The balances after each credit is added in turn; `None` where one of them
/// overflows.
pub open spec fn apply_credits(rows: Seq<BalanceView>, coin: Coin, c: Seq<(Seq<char>, u64)>) -> Option<
    Seq<BalanceView>,
>
    decreases c.len(),
{
    if c.len() == 0 {
        Some(rows)
    } else {
        match apply_credits(rows, coin, c.drop_last()) {
            Some(r) => credit_rows(r, coin, c.last().0, c.last().1),
            None => None,
        }
    }
}

/// Block `id` is in the ledger and already marked distributed.
pub open spec fn already_distributed(v: LedgerView, id: u64) -> bool {
    1 <= id <= v.blocks.len() && v.blocks[id - 1].distributed
}

/// `after` is `rows` with a proper prefix of `credits` applied.
pub open spec fn partly_credited(
    rows: Seq<BalanceView>,
    coin: Coin,
    credits: Seq<(Seq<char>, u64)>,
    after: Seq<BalanceView>,
) -> bool {
    exists|m: int|
        0 <= m < credits.len() && #[trigger] apply_credits(rows, coin, credits.take(m)) == Some(after)
}

proof fn lemma_tally_prefix(t: Seq<(Seq<char>, nat)>, k: int)
    requires
        0 <= k <= t.len(),
    ensures
        tally_total(t.take(k)) <= tally_total(t),
    decreases t.len(),
{
    if k < t.len() {
        assert(t.drop_last().take(k) =~= t.take(k));
        lemma_tally_prefix(t.drop_last(), k);
    } else {
        assert(t.take(k) =~= t);
    }
}

proof fn lemma_div_bound(r: nat, c: nat, total: nat)
    requires
        c <= total,
        total > 0,
    ensures
        (r * c / total) * total <= r * c,
        r * c / total <= r,
{
    assert((r * c / total) * total <= r * c) by (nonlinear_arith)
        requires
            total > 0,
    {
        vstd::arithmetic::div_mod::lemma_fundamental_div_mod(r * c as int, total as int);
    }
    assert(r * c <= r * total) by (nonlinear_arith)
        requires
            c <= total,
    ;
    assert(r * c / total <= r) by (nonlinear_arith)
        requires
            (r * c / total) * total <= r * c,
            r * c <= r * total,
            total > 0,
    ;
}

/// The proportional credits never add up to more than the reward share of
/// the counts they cover.
proof fn lemma_proportional_bound(t: Seq<(Seq<char>, nat)>, reward: u64, total: nat)
    requires
        total > 0,
        tally_total(t) <= total,
    ensures
        credit_sum(proportional_credits(t, reward, total)) * total <= reward * tally_total(t),
        credit_sum(proportional_credits(t, reward, total)) <= reward,
    decreases t.len(),
{
    if t.len() == 0 {
        assert(credit_sum(proportional_credits(t, reward, total)) == 0);
        assert(tally_total(t) == 0);
        assert(0 * total == 0) by (nonlinear_arith);
        assert(reward * 0 == 0) by (nonlinear_arith);
    } else {
        let rest = t.drop_last();
        let c = t.last().1;
        lemma_proportional_bound(rest, reward, total);
        let s0 = credit_sum(proportional_credits(rest, reward, total));
        assert(tally_total(t) == tally_total(rest) + c);
        if c == 0 {
            assert(proportional_credits(t, reward, total) == proportional_credits(rest, reward, total));
            assert(s0 * total <= reward * tally_total(t));
        } else {
            lemma_div_bound(reward as nat, c, total);
            let q = (reward as nat) * c / total;
            let pc = proportional_credits(t, reward, total);
            assert(pc.drop_last() == proportional_credits(rest, reward, total));
            assert(credit_sum(pc) == s0 + q);
            assert((s0 + q) * total <= reward * (tally_total(rest) + c)) by (nonlinear_arith)
                requires
                    s0 * total <= reward * tally_total(rest),
                    q * total <= reward * c,
            ;
            assert(credit_sum(pc) * total <= reward * tally_total(t));
        }
        assert(credit_sum(proportional_credits(t, reward, total)) <= reward) by (nonlinear_arith)
            requires
                credit_sum(proportional_credits(t, reward, total)) * total <= reward * tally_total(t),
                tally_total(t) <= total,
                total > 0,
        ;
    }
}

/// Conservation: the credits issued for a block add up to its reward
/// exactly, however the shares of its window are spread among miners,
/// including when the window holds no shares at all.
pub proof fn lemma_block_credits_conserve(shares: Seq<ShareView>, b: BlockView)
    ensures
        credit_sum(block_credits(shares, b)) == b.reward,
{
    let t = window_tally(shares, b.coin, window_start(b.timestamp), b.timestamp);
    let total = tally_total(t);
    if total == 0 {
        let c = seq![(b.finder, b.reward)];
        assert(c.drop_last() =~= Seq::<(Seq<char>, u64)>::empty());
        assert(credit_sum(c.drop_last()) == 0);
        assert(block_credits(shares, b) == c);
    } else {
        lemma_proportional_bound(t, b.reward, total);
        let pc = proportional_credits(t, b.reward, total);
        if credit_sum(pc) < b.reward {
            let c = pc.push((b.finder, (b.reward - credit_sum(pc)) as u64));
            assert(c.drop_last() =~= pc);
            assert(block_credits(shares, b) == c);
            assert(credit_sum(c) == credit_sum(pc) + (b.reward - credit_sum(pc)));
        } else {
            assert(block_credits(shares, b) == pc);
        }
    }
}

proof fn lemma_pending_sum_update(s: Seq<BalanceView>, i: int, x: BalanceView)
    requires
        0 <= i < s.len(),
    ensures
        pending_sum(s.update(i, x)) + s[i].pending == pending_sum(s) + x.pending,
    decreases s.len(),
{
    let u = s.update(i, x);
    if i == s.len() - 1 {
        assert(u.drop_last() =~= s.drop_last());
    } else {
        lemma_pending_sum_update(s.drop_last(), i, x);
        assert(u.drop_last() =~= s.drop_last().update(i, x));
    }
}

proof fn lemma_credit_rows_sum(rows: Seq<BalanceView>, coin: Coin, address: Seq<char>, amount: u64)
    requires
        credit_rows(rows, coin, address, amount) is Some,
    ensures
        pending_sum(credit_rows(rows, coin, address, amount)->0) == pending_sum(rows) + amount,
{
    match crate::ledger::find_balance(rows, coin, address) {
        Some(i) => {
            crate::ledger::lemma_find_balance_index(rows, coin, address);
            let x = BalanceView { pending: (rows[i].pending + amount) as u64, ..rows[i] };
            lemma_pending_sum_update(rows, i, x);
        },
        None => {
            let x = BalanceView { pending: amount, ..crate::ledger::fresh_balance(coin, address) };
            assert(rows.push(x).drop_last() =~= rows);
        },
    }
}

proof fn lemma_apply_credits_sum(rows: Seq<BalanceView>, coin: Coin, c: Seq<(Seq<char>, u64)>)
    requires
        apply_credits(rows, coin, c) is Some,
    ensures
        pending_sum(apply_credits(rows, coin, c)->0) == pending_sum(rows) + credit_sum(c),
    decreases c.len(),
{
    if c.len() > 0 {
        lemma_apply_credits_sum(rows, coin, c.drop_last());
        let r = apply_credits(rows, coin, c.drop_last())->0;
        lemma_credit_rows_sum(r, coin, c.last().0, c.last().1);
    }
}

/// Conservation in the ledger: crediting a block raises the sum of all
/// pending balances by exactly the block's reward.
pub proof fn lemma_block_distribution_conserves(rows: Seq<BalanceView>, shares: Seq<ShareView>, b: BlockView)
    requires
        apply_credits(rows, b.coin, block_credits(shares, b)) is Some,
    ensures
        pending_sum(apply_credits(rows, b.coin, block_credits(shares, b))->0) == pending_sum(rows) + b.reward,
{
    lemma_apply_credits_sum(rows, b.coin, block_credits(shares, b));
    lemma_block_credits_conserve(shares, b);
}

proof fn lemma_proportional_concat(
    a: Seq<(Seq<char>, nat)>,
    b: Seq<(Seq<char>, nat)>,
    reward: u64,
    total: nat,
)
    ensures
        proportional_credits(a + b, reward, total) == proportional_credits(a, reward, total)
            + proportional_credits(b, reward, total),
    decreases b.len(),
{
    if b.len() == 0 {
        assert(a + b =~= a);
        assert(proportional_credits(a, reward, total) + proportional_credits(b, reward, total)
            =~= proportional_credits(a, reward, total));
    } else {
        lemma_proportional_concat(a, b.drop_last(), reward, total);
        assert((a + b).drop_last() =~= a + b.drop_last());
        assert((a + b).last() == b.last());
        let pa = proportional_credits(a, reward, total);
        let pb = proportional_credits(b.drop_last(), reward, total);
        if b.last().1 > 0 {
            let x = (b.last().0, ((reward as nat) * b.last().1 / total) as u64);
            assert((pa + pb).push(x) =~= pa + pb.push(x));
        }
    }
}

proof fn lemma_apply_none_concat(rows: Seq<BalanceView>, coin: Coin, a: Seq<(Seq<char>, u64)>, b: Seq<(Seq<char>, u64)>)
    requires
        apply_credits(rows, coin, a) is None,
    ensures
        apply_credits(rows, coin, a + b) is None,
    decreases b.len(),
{
    if b.len() == 0 {
        assert(a + b =~= a);
    } else {
        lemma_apply_none_concat(rows, coin, a, b.drop_last());
        assert((a + b).drop_last() =~= a + b.drop_last());
    }
}

proof fn lemma_tally_step(t: Seq<(Seq<char>, nat)>, k: int)
    requires
        0 <= k < t.len(),
    ensures
        t.take(k + 1).drop_last() == t.take(k),
        t.take(k + 1).last() == t[k],
        tally_total(t.take(k + 1)) == tally_total(t.take(k)) + t[k].1,
{
    assert(t.take(k + 1).drop_last() =~= t.take(k));
}

/// Start of the reward window of a block recorded at `timestamp`.
pub fn lookback_start(timestamp: i64) -> (r: i64)
    ensures
        r == window_start(timestamp),
{
    if timestamp >= i64::MIN + LOOKBACK_SECS {
        timestamp - LOOKBACK_SECS
    } else {
        timestamp
    }
}

/// Credits the reward of `block` to the miners of its window, and the
/// rounding remainder (or, with no shares in the window, the whole reward)
/// to its finder; then marks the block distributed. On failure the block
/// stays undistributed.
pub fn distribute_block(db: &mut Database, block: &BlockFound) -> (r: Result<(), LedgerError>)
    requires
        old(db)@.wf(),
    ensures
        final(db)@.wf(),
        old(db)@.evolves_to(final(db)@),
        already_distributed(old(db)@, block.id) ==> r is Ok && final(db)@ == old(db)@,
        !already_distributed(old(db)@, block.id) ==> (apply_credits(
            old(db)@.balances,
            block.coin,
            block_credits(old(db)@.shares, block@),
        ) is Some <==> r is Ok),
        !already_distributed(old(db)@, block.id) && r is Ok ==> final(db)@ == old(db)@.with_balances(
            apply_credits(old(db)@.balances, block.coin, block_credits(old(db)@.shares, block@))->0,
        ).after_mark_distributed(block.id),
        r is Err ==> final(db)@.blocks == old(db)@.blocks && final(db)@.shares == old(db)@.shares
            && final(db)@.payments == old(db)@.payments,
        r is Err ==> partly_credited(old(db)@.balances, block.coin, block_credits(old(db)@.shares, block@), final(db)@.balances),
{
    if db.is_block_distributed(block.id) {
        proof {
            crate::ledger::lemma_evolves_refl(db@);
        }
        return Ok(());
    }
    let ghost v0 = db@;
    let coin = block.coin;
    let reward = block.reward;
    let to = block.timestamp;
    let from = lookback_start(to);
    let miners = db.get_miners_in_range(coin, from, to);
    let ghost t = window_tally(v0.shares, coin, from, to);
    let ghost credits = block_credits(v0.shares, block@);
    let mut counts: Vec<u64> = Vec::new();
    let mut total: u128 = 0;
    let mut k: usize = 0;
    while k < miners.len()
        invariant
            db@ == v0,
            v0 == old(db)@,
            !already_distributed(v0, block.id),
            from == window_start(block.timestamp),
            to == block.timestamp,
            coin == block.coin,
            reward == block.reward,
            credits == block_credits(v0.shares, block@),
            0 <= k <= miners.len(),
            t.len() == miners.len(),
            string_views(miners@) == window_miners(v0.shares, coin, from, to),
            t == window_tally(v0.shares, coin, from, to),
            counts.len() == k,
            forall|j: int| 0 <= j < k ==> counts@[j] as nat == t[j].1,
            total == tally_total(t.take(k as int)),
            total <= k * 0xFFFF_FFFF_FFFF_FFFFnat,
        decreases miners.len() - k,
    {
        let c = db.get_share_count_in_range(coin, miners[k].as_str(), from, to);
        proof {
            assert(string_views(miners@)[k as int] == miners@[k as int]@);
            assert(t[k as int].1 == c as nat);
            lemma_tally_step(t, k as int);
            assert(total + c <= (k + 1) * 0xFFFF_FFFF_FFFF_FFFFnat) by (nonlinear_arith)
                requires
                    total <= k * 0xFFFF_FFFF_FFFF_FFFFnat,
                    c <= 0xFFFF_FFFF_FFFF_FFFFnat,
            ;
            assert(k + 1 <= 0xFFFF_FFFF_FFFF_FFFFnat);
            assert((k + 1) * 0xFFFF_FFFF_FFFF_FFFFnat <= 0xFFFF_FFFF_FFFF_FFFFnat * 0xFFFF_FFFF_FFFF_FFFFnat)
                by (nonlinear_arith)
                requires
                    k + 1 <= 0xFFFF_FFFF_FFFF_FFFFnat,
            ;
        }
        counts.push(c);
        total = total + c as u128;
        k = k + 1;
    }
    proof {
        assert(t.take(k as int) =~= t);
    }
    if total == 0 {
        proof {
            let c1 = seq![(block@.finder, reward)];
            assert(credits == c1);
            assert(c1.drop_last() =~= Seq::<(Seq<char>, u64)>::empty());
        }
        match db.add_pending_balance(coin, block.finder_wallet.as_str(), reward) {
            Ok(()) => {},
            Err(e) => {
                proof {
                    assert(credits.take(0) =~= Seq::<(Seq<char>, u64)>::empty());
                    assert(apply_credits(v0.balances, coin, credits.take(0)) == Some(db@.balances));
                }
                return Err(e);
            },
        }
    } else {
        let mut distributed: u64 = 0;
        let mut k: usize = 0;
        while k < miners.len()
            invariant
                db@.wf(),
                v0 == old(db)@,
            !already_distributed(v0, block.id),
                from == window_start(block.timestamp),
                to == block.timestamp,
                coin == block.coin,
                reward == block.reward,
                credits == block_credits(v0.shares, block@),
                v0.evolves_to(db@),
                0 <= k <= miners.len(),
                t.len() == miners.len(),
                counts.len() == miners.len(),
                string_views(miners@) == window_miners(v0.shares, coin, from, to),
                t == window_tally(v0.shares, coin, from, to),
                forall|j: int| 0 <= j < miners.len() ==> counts@[j] as nat == t[j].1,
                total == tally_total(t),
                total > 0,
                apply_credits(v0.balances, coin, proportional_credits(t.take(k as int), reward, total as nat))
                    is Some,
                db@ == v0.with_balances(
                    apply_credits(v0.balances, coin, proportional_credits(t.take(k as int), reward, total as nat))->0,
                ),
                distributed == credit_sum(proportional_credits(t.take(k as int), reward, total as nat)),
            decreases miners.len() - k,
        {
            let ghost pk = proportional_credits(t.take(k as int), reward, total as nat);
            proof {
                lemma_tally_step(t, k as int);
                lemma_tally_prefix(t, k + 1);
                lemma_proportional_bound(t.take(k + 1), reward, total as nat);
                assert(string_views(miners@)[k as int] == miners@[k as int]@);
            }
            let c = counts[k];
            if c > 0 {
                proof {
                    lemma_div_bound(reward as nat, c as nat, total as nat);
                    assert((reward as nat) * (c as nat) <= 0xFFFF_FFFF_FFFF_FFFFnat * 0xFFFF_FFFF_FFFF_FFFFnat)
                        by (nonlinear_arith)
                        requires
                            reward <= 0xFFFF_FFFF_FFFF_FFFFnat,
                            c <= 0xFFFF_FFFF_FFFF_FFFFnat,
                    ;
                }
                let credit = ((reward as u128) * (c as u128) / total) as u64;
                let ghost item = (miners@[k as int]@, credit);
                proof {
                    assert(proportional_credits(t.take(k + 1), reward, total as nat) == pk.push(item));
                    assert(pk.push(item).drop_last() =~= pk);
                }
                match db.add_pending_balance(coin, miners[k].as_str(), credit) {
                    Ok(()) => {},
                    Err(e) => {
                        proof {
                            assert(apply_credits(v0.balances, coin, pk.push(item)) is None);
                            lemma_proportional_concat(t.take(k + 1), t.skip(k + 1), reward, total as nat);
                            assert(t.take(k + 1) + t.skip(k + 1) =~= t);
                            let pc = proportional_credits(t, reward, total as nat);
                            lemma_apply_none_concat(
                                v0.balances,
                                coin,
                                pk.push(item),
                                proportional_credits(t.skip(k + 1), reward, total as nat),
                            );
                            assert(pc == pk.push(item) + proportional_credits(t.skip(k + 1), reward, total as nat));
                            assert(apply_credits(v0.balances, coin, pc) is None);
                            if credit_sum(pc) < reward {
                                let fin = seq![(block@.finder, (reward - credit_sum(pc)) as u64)];
                                lemma_apply_none_concat(v0.balances, coin, pc, fin);
                                assert(pc + fin =~= pc.push((block@.finder, (reward - credit_sum(pc)) as u64)));
                                assert(credits == pc + fin);
                            } else {
                                assert(credits == pc);
                            }
                            let m = pk.len() as int;
                            assert(credits.take(m) =~= pk);
                            assert(apply_credits(v0.balances, coin, credits.take(m)) == Some(db@.balances));
                        }
                        return Err(e);
                    },
                }
                distributed = distributed + credit;
            } else {
                proof {
                    assert(proportional_credits(t.take(k + 1), reward, total as nat) == pk);
                }
            }
            k = k + 1;
        }
        proof {
            assert(t.take(k as int) =~= t);
            lemma_proportional_bound(t, reward, total as nat);
        }
        let remainder = reward - distributed;
        if remainder > 0 {
            let ghost pc = proportional_credits(t, reward, total as nat);
            let ghost item = (block@.finder, remainder);
            proof {
                assert(credits == pc.push(item));
                assert(pc.push(item).drop_last() =~= pc);
            }
            match db.add_pending_balance(coin, block.finder_wallet.as_str(), remainder) {
                Ok(()) => {},
                Err(e) => {
                    proof {
                        assert(credits.take(pc.len() as int) =~= pc);
                        assert(apply_credits(v0.balances, coin, credits.take(pc.len() as int)) == Some(db@.balances));
                    }
                    return Err(e);
                },
            }
        }
    }
    db.mark_block_distributed(block.id);
    Ok(())
}

} // verus!
