//! Payout decisions: how much is owed, who is paid when the wallet cannot
//! cover everyone, and how wallet answers are written to the ledger.
use vstd::prelude::*;
use crate::ledger::{
    balance_views,
    find_payment,
    lemma_find_payment_none,
    string_views,
    lemma_find_payment_unique,
    str_opt_view,
    BalanceView,
    Database,
    LedgerError,
    MinerBalance,
    PaymentView,
};
use crate::model::{PaymentStatus, TxStatus};

verus! {

/// Sum of the pending amounts of some balance rows.
pub open spec fn pending_sum(rows: Seq<BalanceView>) -> nat
    decreases rows.len(),
{
    if rows.len() == 0 {
        0
    } else {
        pending_sum(rows.drop_last()) + (rows.last().pending as nat)
    }
}

/// Total owed to the payable balances.
pub fn total_payable(payable: &Vec<MinerBalance>) -> (r: u128)
    ensures
        r == pending_sum(balance_views(payable@)),
{
    let ghost rows = balance_views(payable@);
    let mut total: u128 = 0;
    let mut i: usize = 0;
    while i < payable.len()
        invariant
            0 <= i <= payable.len(),
            rows == balance_views(payable@),
            total == pending_sum(rows.take(i as int)),
            total <= i * 0xFFFF_FFFF_FFFF_FFFFnat,
        decreases payable.len() - i,
    {
        let p = payable[i].pending_balance;
        proof {
            assert(rows.take(i + 1).drop_last() =~= rows.take(i as int));
            assert(rows.take(i + 1).last() == payable@[i as int]@);
            assert(total + p <= (i + 1) * 0xFFFF_FFFF_FFFF_FFFFnat) by (nonlinear_arith)
                requires
                    total <= i * 0xFFFF_FFFF_FFFF_FFFFnat,
                    p <= 0xFFFF_FFFF_FFFF_FFFFnat,
            ;
            assert(i + 1 <= 0xFFFF_FFFF_FFFF_FFFFnat);
            assert((i + 1) * 0xFFFF_FFFF_FFFF_FFFFnat <= 0xFFFF_FFFF_FFFF_FFFFnat * 0xFFFF_FFFF_FFFF_FFFFnat)
                by (nonlinear_arith)
                requires
                    i + 1 <= 0xFFFF_FFFF_FFFF_FFFFnat,
            ;
        }
        total = total + p as u128;
        i = i + 1;
    }
    proof {
        assert(rows.take(i as int) =~= rows);
    }
    total
}

/// Whether the spendable wallet balance covers every payable balance, in
/// which case all of them are paid in one batch.
pub fn covers_all(spendable: u64, payable: &Vec<MinerBalance>) -> (r: bool)
    ensures
        r == (spendable >= pending_sum(balance_views(payable@))),
{
    spendable as u128 >= total_payable(payable)
}

/// How a payout cycle pays: everyone in one batch when the wallet covers the
/// whole amount owed, else the largest balances that fit, one by one.
#[derive(Debug, Clone, Copy, PartialEq, Eq, Structural)]
pub enum PayoutMode {
    Batch,
    LargestFirst,
}

pub fn payout_mode(spendable: u64, payable: &Vec<MinerBalance>) -> (r: PayoutMode)
    ensures
        (r == PayoutMode::Batch) == (spendable >= pending_sum(balance_views(payable@))),
{
    if covers_all(spendable, payable) {
        PayoutMode::Batch
    } else {
        PayoutMode::LargestFirst
    }
}

/// Address and pending amount of each payable balance, in ledger order:
/// the outputs of a batch, and the order of the one-by-one fallback when
/// the batch fails.
pub fn payees(payable: &Vec<MinerBalance>) -> (r: Vec<(String, u64)>)
    ensures
        payee_views(r@) == payees_of(balance_views(payable@)),
{
    let mut out: Vec<(String, u64)> = Vec::new();
    let mut i: usize = 0;
    while i < payable.len()
        invariant
            0 <= i <= payable.len(),
            payee_views(out@) == payees_of(balance_views(payable@)).take(i as int),
        decreases payable.len() - i,
    {
        let ghost before = payee_views(out@);
        out.push((payable[i].wallet_address.clone(), payable[i].pending_balance));
        proof {
            assert(payee_views(out@) =~= before.push((payable@[i as int].wallet_address@, payable@[i as int].pending_balance)));
            assert(payees_of(balance_views(payable@)).take(i + 1) =~= payees_of(balance_views(payable@)).take(
                i as int,
            ).push(payees_of(balance_views(payable@))[i as int]));
        }
        i = i + 1;
    }
    proof {
        assert(payees_of(balance_views(payable@)).take(i as int) =~= payees_of(balance_views(payable@)));
    }
    out
}

/// Address and amount of each balance.
pub open spec fn payees_of(rows: Seq<BalanceView>) -> Seq<(Seq<char>, u64)> {
    rows.map_values(|b: BalanceView| (b.address, b.pending))
}

pub open spec fn payee_views(v: Seq<(String, u64)>) -> Seq<(Seq<char>, u64)> {
    v.map_values(|p: (String, u64)| (p.0@, p.1))
}

/// Largest amount first.
pub open spec fn sorted_desc(s: Seq<(Seq<char>, u64)>) -> bool {
    forall|i: int, j: int| 0 <= i < j < s.len() ==> s[i].1 >= s[j].1
}

/// Index of the first payee at or after `start` owed less than `amount`, or
/// the length when there is none.
pub open spec fn first_smaller_from(s: Seq<(Seq<char>, u64)>, amount: u64, start: int) -> int
    decreases s.len() - start,
{
    if start < 0 || start >= s.len() {
        s.len() as int
    } else if s[start].1 < amount {
        start
    } else {
        first_smaller_from(s, amount, start + 1)
    }
}

/// The payees ordered by amount, largest first; equal amounts keep the
/// order they are given in.
pub open spec fn amount_order(s: Seq<(Seq<char>, u64)>) -> Seq<(Seq<char>, u64)>
    decreases s.len(),
{
    if s.len() == 0 {
        Seq::empty()
    } else {
        let r = amount_order(s.drop_last());
        r.insert(first_smaller_from(r, s.last().1, 0), s.last())
    }
}

/// Pays as many of the largest balances as the wallet can cover: the
/// payees come largest first, and each one whose amount still fits in what
/// is left is handed out; what is left drops only by what was actually sent.
pub struct PayoutQueue {
    pub payees: Vec<(String, u64)>,
    pub next: usize,
    pub remaining: u64,
}

impl PayoutQueue {
    pub open spec fn wf(&self) -> bool {
        self.next <= self.payees@.len()
    }

    /// Orders the payable balances by pending amount, largest first (equal
    /// amounts keep their ledger order), against `spendable`.
    pub fn new(payable: &Vec<MinerBalance>, spendable: u64) -> (r: PayoutQueue)
        ensures
            r.wf(),
            payee_views(r.payees@) == amount_order(payees_of(balance_views(payable@))),
            sorted_desc(payee_views(r.payees@)),
            payee_views(r.payees@).to_multiset() == payees_of(balance_views(payable@)).to_multiset(),
            r.next == 0,
            r.remaining == spendable,
    {
        let ghost all = payees_of(balance_views(payable@));
        let mut out: Vec<(String, u64)> = Vec::new();
        let mut i: usize = 0;
        proof {
            assert(payee_views(out@) =~= all.take(0));
            assert(all.take(0) =~= Seq::<(Seq<char>, u64)>::empty());
        }
        while i < payable.len()
            invariant
                0 <= i <= payable.len(),
                all == payees_of(balance_views(payable@)),
                payee_views(out@) == amount_order(all.take(i as int)),
                sorted_desc(payee_views(out@)),
                payee_views(out@).to_multiset() == all.take(i as int).to_multiset(),
            decreases payable.len() - i,
        {
            let amount = payable[i].pending_balance;
            let address = payable[i].wallet_address.clone();
            let ghost before = payee_views(out@);
            let mut j: usize = 0;
            while j < out.len() && out[j].1 >= amount
                invariant
                    0 <= j <= out.len(),
                    before == payee_views(out@),
                    forall|m: int| 0 <= m < j ==> out@[m].1 >= amount,
                    first_smaller_from(before, amount, 0) == first_smaller_from(before, amount, j as int),
                decreases out.len() - j,
            {
                proof {
                    assert(before[j as int] == (out@[j as int].0@, out@[j as int].1));
                }
                j = j + 1;
            }
            proof {
                if j < out.len() {
                    assert(before[j as int] == (out@[j as int].0@, out@[j as int].1));
                }
                assert(first_smaller_from(before, amount, j as int) == j);
            }
            let ghost item = (address@, amount);
            proof {
                assert(item == all[i as int]);
                assert(all.take(i + 1).drop_last() =~= all.take(i as int));
                assert(amount_order(all.take(i + 1)) == before.insert(j as int, item));
                assert(all.take(i + 1) =~= all.take(i as int).push(item));
                vstd::seq_lib::to_multiset_build(all.take(i as int), item);
                vstd::seq_lib::to_multiset_insert(before, j as int, item);
            }
            out.insert(j, (address, amount));
            proof {
                let after = payee_views(out@);
                assert(after =~= before.insert(j as int, item));
                assert forall|a: int, b: int| 0 <= a < b < after.len() implies after[a].1 >= after[b].1 by {
                    if b < j {
                    } else if b == j {
                        assert(after[a] == before[a]);
                    } else if a < j {
                        assert(after[b] == before[b - 1]);
                        if j < before.len() {
                            assert(before[j as int].1 < amount);
                            assert(before[j as int].1 >= before[b - 1].1);
                        }
                    } else if a == j {
                        assert(after[b] == before[b - 1]);
                        assert(before[j as int].1 < amount);
                        if j < b - 1 {
                            assert(before[j as int].1 >= before[b - 1].1);
                        }
                    } else {
                        assert(after[a] == before[a - 1]);
                        assert(after[b] == before[b - 1]);
                    }
                }
            }
            i = i + 1;
        }
        proof {
            assert(all.take(i as int) =~= all);
        }
        PayoutQueue { payees: out, next: 0, remaining: spendable }
    }

    /// The next payee, in order, whose amount fits in what is left to
    /// spend; the payees passed over on the way do not fit. `None` once the
    /// queue is through.
    pub fn next_payee(&mut self) -> (r: Option<(String, u64)>)
        requires
            old(self).wf(),
        ensures
            final(self).wf(),
            final(self).payees == old(self).payees,
            final(self).remaining == old(self).remaining,
            old(self).next <= final(self).next,
            forall|j: int|
                old(self).next <= j < final(self).next - (if r is Some {
                    1int
                } else {
                    0int
                }) ==> #[trigger] old(self).payees@[j].1 > old(self).remaining,
            r is None ==> final(self).next == final(self).payees@.len(),
            r matches Some(p) ==> {
                &&& final(self).next >= 1
                &&& p.0@ == final(self).payees@[final(self).next - 1].0@
                &&& p.1 == final(self).payees@[final(self).next - 1].1
                &&& p.1 <= final(self).remaining
            },
    {
        while self.next < self.payees.len() && self.payees[self.next].1 > self.remaining
            invariant
                self.wf(),
                self.payees == old(self).payees,
                self.remaining == old(self).remaining,
                old(self).next <= self.next,
                forall|j: int|
                    old(self).next <= j < self.next ==> #[trigger] old(self).payees@[j].1
                        > old(self).remaining,
            decreases self.payees.len() - self.next,
        {
            self.next = self.next + 1;
        }
        if self.next < self.payees.len() {
            let k = self.next;
            let p = (self.payees[k].0.clone(), self.payees[k].1);
            self.next = k + 1;
            Some(p)
        } else {
            None
        }
    }

    /// Reports how the send of a payee taken from the queue went: what is
    /// left to spend drops by `amount` only when it was sent.
    pub fn record_outcome(&mut self, amount: u64, sent: bool)
        requires
            amount <= old(self).remaining,
        ensures
            final(self).payees == old(self).payees,
            final(self).next == old(self).next,
            final(self).remaining == if sent {
                old(self).remaining - amount
            } else {
                old(self).remaining as int
            },
    {
        if sent {
            self.remaining = self.remaining - amount;
        }
    }
}

/// The pending amount of the first balance of `address` at or after
/// `start`, or zero.
pub open spec fn amount_from(rows: Seq<BalanceView>, address: Seq<char>, start: int) -> u64
    decreases rows.len() - start,
{
    if start < 0 || start >= rows.len() {
        0
    } else if rows[start].address == address {
        rows[start].pending
    } else {
        amount_from(rows, address, start + 1)
    }
}

/// The amount owed to `address` among the payable balances, or zero.
pub fn payable_amount(payable: &Vec<MinerBalance>, address: &str) -> (r: u64)
    ensures
        r == amount_from(balance_views(payable@), address@, 0),
{
    let key = String::from_str(address);
    let mut i: usize = 0;
    while i < payable.len()
        invariant
            0 <= i <= payable.len(),
            key@ == address@,
            amount_from(balance_views(payable@), address@, 0) == amount_from(
                balance_views(payable@),
                address@,
                i as int,
            ),
        decreases payable.len() - i,
    {
        proof {
            assert(balance_views(payable@)[i as int] == payable@[i as int]@);
        }
        if payable[i].wallet_address.eq(&key) {
            return payable[i].pending_balance;
        }
        i = i + 1;
    }
    0
}

/// None of `ids` is taken in `rows`, and no two of them are equal.
pub open spec fn fresh_ids(rows: Seq<PaymentView>, ids: Seq<Seq<char>>) -> bool {
    &&& forall|k: int| 0 <= k < ids.len() ==> find_payment(rows, #[trigger] ids[k]) is None
    &&& forall|a: int, b: int| 0 <= a < b < ids.len() ==> ids[a] != ids[b]
}

/// A payment row sent in a batch: `Processing`, under the batch's
/// transaction id.
pub open spec fn is_sent_row(
    p: PaymentView,
    coin: crate::model::Coin,
    address: Seq<char>,
    amount: u64,
    tx_hash: Seq<char>,
) -> bool {
    &&& p.coin == coin
    &&& p.address == address
    &&& p.amount == amount
    &&& p.status == PaymentStatus::Processing
    &&& p.tx_hash == Some(tx_hash)
    &&& p.error is None
}

/// Writes a successful batch payment to the ledger: for each `(address,
/// transaction id)` the wallet returned, one payment of the amount owed to
/// that address under the matching id of `ids`, moved straight to
/// `Processing` under the transaction id. Balances are left to confirmation.
pub fn record_batch_payment(
    db: &mut Database,
    coin: crate::model::Coin,
    payable: &Vec<MinerBalance>,
    sent: &Vec<(String, String)>,
    ids: &Vec<String>,
) -> (r: Result<u64, LedgerError>)
    requires
        old(db)@.wf(),
    ensures
        final(db)@.wf(),
        old(db)@.evolves_to(final(db)@),
        final(db)@.balances == old(db)@.balances,
        final(db)@.shares == old(db)@.shares,
        final(db)@.blocks == old(db)@.blocks,
        ids@.len() != sent@.len() ==> r == Err::<u64, LedgerError>(LedgerError::Inconsistent) && final(db)@
            == old(db)@,
        r matches Err(e) ==> e == LedgerError::DuplicatePaymentId || e == LedgerError::Inconsistent,
        ids@.len() == sent@.len() && fresh_ids(old(db)@.payments, string_views(ids@)) ==> r is Ok,
        r matches Ok(n) ==> {
            &&& n == sent@.len()
            &&& final(db)@.payments.len() == old(db)@.payments.len() + n
            &&& forall|k: int|
                0 <= k < n ==> is_sent_row(
                    #[trigger] final(db)@.payments[old(db)@.payments.len() + k],
                    coin,
                    sent@[k].0@,
                    amount_from(balance_views(payable@), sent@[k].0@, 0),
                    sent@[k].1@,
                ) && final(db)@.payments[old(db)@.payments.len() + k].id == ids@[k]@
        },
{
    let ghost v0 = db@;
    if ids.len() != sent.len() {
        proof {
            crate::ledger::lemma_evolves_refl(v0);
        }
        return Err(LedgerError::Inconsistent);
    }
    let mut count: u64 = 0;
    let mut k: usize = 0;
    while k < sent.len()
        invariant
            0 <= k <= sent.len(),
            v0 == old(db)@,
            count == k,
            db@.wf(),
            v0.evolves_to(db@),
            db@.balances == v0.balances,
            db@.shares == v0.shares,
            db@.blocks == v0.blocks,
            db@.payments.len() == v0.payments.len() + k,
            ids@.len() == sent@.len(),
            forall|m: int|
                0 <= m < k ==> is_sent_row(
                    #[trigger] db@.payments[v0.payments.len() + m],
                    coin,
                    sent@[m].0@,
                    amount_from(balance_views(payable@), sent@[m].0@, 0),
                    sent@[m].1@,
                ) && db@.payments[v0.payments.len() + m].id == ids@[m]@,
            forall|m: int| 0 <= m < v0.payments.len() ==> db@.payments[m] == v0.payments[m],
        decreases sent.len() - k,
    {
        let address = sent[k].0.as_str();
        let tx_hash = sent[k].1.as_str();
        let amount = payable_amount(payable, address);
        let ghost before = db@;
        proof {
            if fresh_ids(v0.payments, string_views(ids@)) {
                assert(string_views(ids@)[k as int] == ids@[k as int]@);
                lemma_find_payment_none(v0.payments, ids@[k as int]@, 0);
                assert forall|j: int| 0 <= j < before.payments.len() implies before.payments[j].id
                    != ids@[k as int]@ by {
                    if j >= v0.payments.len() {
                        let m = j - v0.payments.len();
                        assert(db@.payments[v0.payments.len() + m].id == ids@[m]@);
                        assert(string_views(ids@)[m] == ids@[m]@);
                    }
                }
                crate::ledger::lemma_find_payment_absent(before.payments, ids@[k as int]@, 0);
            }
        }
        let id = match db.create_payment(ids[k].as_str(), coin, address, amount) {
            Ok(id) => id,
            Err(e) => {
                proof {
                    crate::ledger::lemma_evolves_trans(v0, before, db@);
                }
                return Err(e);
            },
        };
        let ghost created = db@;
        let ghost m = before.payments.len() as int;
        proof {
            crate::ledger::lemma_evolves_trans(v0, before, created);
            assert(created.payments[m].id == id@);
            lemma_find_payment_unique(created.payments, id@, m, 0);
        }
        match db.update_payment_status(id.as_str(), PaymentStatus::Processing, Some(tx_hash), None) {
            Ok(()) => {},
            Err(e) => {
                proof {
                    assert(false);
                }
                return Err(e);
            },
        }
        proof {
            crate::ledger::lemma_evolves_trans(v0, created, db@);
            assert(str_opt_view(Some(tx_hash)) == Some(tx_hash@));
            assert forall|j: int| 0 <= j < k + 1 implies is_sent_row(
                #[trigger] db@.payments[v0.payments.len() + j],
                coin,
                sent@[j].0@,
                amount_from(balance_views(payable@), sent@[j].0@, 0),
                sent@[j].1@,
            ) by {
                if j < k {
                    assert(db@.payments[v0.payments.len() + j] == before.payments[v0.payments.len() + j]);
                }
            }
            assert forall|j: int| 0 <= j < k + 1 implies db@.payments[v0.payments.len() + j].id == ids@[j]@ by {
                if j < k {
                    assert(db@.payments[v0.payments.len() + j] == before.payments[v0.payments.len() + j]);
                }
            }
            assert forall|j: int| 0 <= j < v0.payments.len() implies db@.payments[j] == v0.payments[j] by {
                assert(db@.payments[j] == before.payments[j]);
            }
        }
        count = count + 1;
        k = k + 1;
    }
    Ok(count)
}

/// The status, transaction id and error that a send outcome writes.
pub open spec fn send_update(outcome: Result<String, String>) -> (PaymentStatus, Option<Seq<char>>, Option<
    Seq<char>,
>) {
    match outcome {
        Ok(tx) => (PaymentStatus::Processing, Some(tx@), None),
        Err(msg) => (PaymentStatus::Failed, None, Some(msg@)),
    }
}

/// Writes what the wallet answered to a single payment: a transaction id
/// moves the payment to `Processing` under that id, an error marks it
/// `Failed` with the error's text. Returns whether the payment went out.
pub fn record_send_outcome(db: &mut Database, payment_id: &str, outcome: &Result<String, String>) -> (r:
    Result<bool, LedgerError>)
    requires
        old(db)@.wf(),
    ensures
        final(db)@.wf(),
        old(db)@.evolves_to(final(db)@),
        exists|now: i64|
            match #[trigger] old(db)@.after_status_update(
                payment_id@,
                send_update(*outcome).0,
                send_update(*outcome).1,
                send_update(*outcome).2,
                now,
            ) {
                Ok(v) => r == Ok::<bool, LedgerError>(outcome is Ok) && final(db)@ == v,
                Err(e) => r == Err::<bool, LedgerError>(e) && final(db)@ == old(db)@,
            },
{
    match outcome {
        Ok(tx) => {
            let tx_hash = tx.as_str();
            proof {
                assert(str_opt_view(Some(tx_hash)) == Some(tx@));
                assert(str_opt_view(None) == None::<Seq<char>>);
                assert(send_update(*outcome) == (PaymentStatus::Processing, Some(tx@), None::<Seq<char>>));
            }
            let ghost v0 = db@;
            let res = db.update_payment_status(payment_id, PaymentStatus::Processing, Some(tx_hash), None);
            let r = match res {
                Ok(()) => Ok(true),
                Err(e) => Err(e),
            };
            proof {
                let now = choose|now: i64|
                    match #[trigger] v0.after_status_update(
                        payment_id@,
                        PaymentStatus::Processing,
                        str_opt_view(Some(tx_hash)),
                        str_opt_view(None),
                        now,
                    ) {
                        Ok(v) => res is Ok && db@ == v,
                        Err(e) => res == Err::<(), LedgerError>(e) && db@ == v0,
                    };
                assert(outcome is Ok);
                let u = v0.after_status_update(payment_id@, send_update(*outcome).0, send_update(*outcome).1, send_update(*outcome).2, now);
                assert(u == v0.after_status_update(payment_id@, PaymentStatus::Processing, str_opt_view(Some(tx_hash)), str_opt_view(None), now));
            }
            r
        },
        Err(msg) => match db.update_payment_status(payment_id, PaymentStatus::Failed, None, Some(msg.as_str())) {
            Ok(()) => Ok(false),
            Err(e) => Err(e),
        },
    }
}

/// The ledger update that a wallet's transaction status calls for: a
/// confirmed transaction confirms the payment, a failed one fails it with
/// the reason; any other status changes nothing.
pub open spec fn confirmation_update(s: TxStatus) -> Option<(PaymentStatus, Option<Seq<char>>)> {
    match s {
        TxStatus::Confirmed => Some((PaymentStatus::Confirmed, None)),
        TxStatus::Failed(reason) => Some((PaymentStatus::Failed, Some(reason@))),
        _ => None,
    }
}

pub open spec fn confirmed_or_failed(s: TxStatus) -> PaymentStatus {
    if s == TxStatus::Confirmed {
        PaymentStatus::Confirmed
    } else {
        PaymentStatus::Failed
    }
}

pub open spec fn failure_reason(s: TxStatus) -> Option<Seq<char>> {
    match s {
        TxStatus::Failed(reason) => Some(reason@),
        _ => None,
    }
}

/// Writes the transaction status the wallet reported for a payment at
/// `now`. Returns whether the payment is now confirmed; confirming settles
/// its amount on the miner's balance.
pub fn apply_tx_status_at(db: &mut Database, payment_id: &str, status: &TxStatus, now: i64) -> (r: Result<
    bool,
    LedgerError,
>)
    requires
        old(db)@.wf(),
    ensures
        final(db)@.wf(),
        old(db)@.evolves_to(final(db)@),
        match confirmation_update(*status) {
            None => r == Ok::<bool, LedgerError>(false) && final(db)@ == old(db)@,
            Some(u) => match old(db)@.after_status_update(payment_id@, u.0, None, u.1, now) {
                Ok(v) => r == Ok::<bool, LedgerError>(u.0 == PaymentStatus::Confirmed) && final(db)@ == v,
                Err(e) => r == Err::<bool, LedgerError>(e) && final(db)@ == old(db)@,
            },
        },
{
    match status {
        TxStatus::Confirmed => match db.update_payment_status_at(payment_id, PaymentStatus::Confirmed, None, None, now) {
            Ok(()) => Ok(true),
            Err(e) => Err(e),
        },
        TxStatus::Failed(reason) => match db.update_payment_status_at(
            payment_id,
            PaymentStatus::Failed,
            None,
            Some(reason.as_str()),
            now,
        ) {
            Ok(()) => Ok(false),
            Err(e) => Err(e),
        },
        _ => {
            proof {
                assert(old(db)@.evolves_to(db@));
            }
            Ok(false)
        },
    }
}

/// `apply_tx_status_at` with the current time.
pub fn apply_tx_status(db: &mut Database, payment_id: &str, status: &TxStatus) -> (r: Result<bool, LedgerError>)
    requires
        old(db)@.wf(),
    ensures
        final(db)@.wf(),
        old(db)@.evolves_to(final(db)@),
        confirmation_update(*status) is None ==> r == Ok::<bool, LedgerError>(false) && final(db)@ == old(db)@,
        confirmation_update(*status) is Some ==> exists|now: i64|
            match #[trigger] old(db)@.after_status_update(
                payment_id@,
                confirmed_or_failed(*status),
                None,
                failure_reason(*status),
                now,
            ) {
                Ok(v) => r == Ok::<bool, LedgerError>(*status == TxStatus::Confirmed) && final(db)@ == v,
                Err(e) => r == Err::<bool, LedgerError>(e) && final(db)@ == old(db)@,
            },
{
    let now = crate::ledger::now_unix();
    apply_tx_status_at(db, payment_id, status, now)
}

} // verus!
