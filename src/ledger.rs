//! The ledger: shares, balances, payments and blocks, with the rules that
//! tie them together. Every mutating operation is one serialized write; an
//! operation that fails leaves the ledger as it was.
use vstd::prelude::*;
use crate::model::{Coin, PaymentStatus};

verus! {

/// Why a ledger write was refused.
#[derive(Debug, Clone, Copy, PartialEq, Eq, Structural)]
pub enum LedgerError {
    /// An amount or a counter would leave the range of `u64`.
    Overflow,
    /// A payment with this id already exists.
    DuplicatePaymentId,
    /// The payment is settled, or the update would move it backwards.
    InvalidTransition,
    /// A restored row repeats a key or breaks the order of row ids.
    Inconsistent,
}

/// One proof-of-work submission. Append-only.
#[derive(Debug)]
pub struct Share {
    pub id: u64,
    pub coin: Coin,
    pub wallet_address: String,
    pub worker_name: String,
    pub difficulty: u64,
    /// Unix seconds at which the ledger recorded the share.
    pub timestamp: i64,
    pub block_height: Option<i64>,
    pub is_block: bool,
}

pub struct ShareView {
    pub id: u64,
    pub coin: Coin,
    pub address: Seq<char>,
    pub worker: Seq<char>,
    pub difficulty: u64,
    pub timestamp: i64,
    pub block_height: Option<i64>,
    pub is_block: bool,
}

impl View for Share {
    type V = ShareView;

    open spec fn view(&self) -> ShareView {
        ShareView {
            id: self.id,
            coin: self.coin,
            address: self.wallet_address@,
            worker: self.worker_name@,
            difficulty: self.difficulty,
            timestamp: self.timestamp,
            block_height: self.block_height,
            is_block: self.is_block,
        }
    }
}

/// A miner's balance for one coin. Amounts are in the coin's atomic units.
#[derive(Debug)]
pub struct MinerBalance {
    pub wallet_address: String,
    pub coin: Coin,
    /// Credited and not yet paid.
    pub pending_balance: u64,
    /// Paid out to date.
    pub total_paid: u64,
    pub total_shares: u64,
    pub last_share: Option<i64>,
    pub last_payment: Option<i64>,
}

pub struct BalanceView {
    pub address: Seq<char>,
    pub coin: Coin,
    pub pending: u64,
    pub total_paid: u64,
    pub total_shares: u64,
    pub last_share: Option<i64>,
    pub last_payment: Option<i64>,
}

impl View for MinerBalance {
    type V = BalanceView;

    open spec fn view(&self) -> BalanceView {
        BalanceView {
            address: self.wallet_address@,
            coin: self.coin,
            pending: self.pending_balance,
            total_paid: self.total_paid,
            total_shares: self.total_shares,
            last_share: self.last_share,
            last_payment: self.last_payment,
        }
    }
}

/// One payout attempt.
#[derive(Debug)]
pub struct Payment {
    pub id: String,
    pub coin: Coin,
    pub wallet_address: String,
    pub amount: u64,
    pub tx_hash: Option<String>,
    pub status: PaymentStatus,
    pub created_at: i64,
    pub confirmed_at: Option<i64>,
    pub error_message: Option<String>,
}

pub struct PaymentView {
    pub id: Seq<char>,
    pub coin: Coin,
    pub address: Seq<char>,
    pub amount: u64,
    pub tx_hash: Option<Seq<char>>,
    pub status: PaymentStatus,
    pub created_at: i64,
    pub confirmed_at: Option<i64>,
    pub error: Option<Seq<char>>,
}

pub open spec fn opt_view(s: Option<String>) -> Option<Seq<char>> {
    match s {
        Some(t) => Some(t@),
        None => None,
    }
}

impl View for Payment {
    type V = PaymentView;

    open spec fn view(&self) -> PaymentView {
        PaymentView {
            id: self.id@,
            coin: self.coin,
            address: self.wallet_address@,
            amount: self.amount,
            tx_hash: opt_view(self.tx_hash),
            status: self.status,
            created_at: self.created_at,
            confirmed_at: self.confirmed_at,
            error: opt_view(self.error_message),
        }
    }
}

/// A block found by the pool.
#[derive(Debug)]
pub struct BlockFound {
    pub id: u64,
    pub coin: Coin,
    pub block_height: i64,
    pub block_hash: String,
    /// Reward in the coin's atomic units.
    pub reward: u64,
    pub finder_wallet: String,
    pub finder_worker: String,
    /// Unix seconds at which the ledger recorded the block.
    pub timestamp: i64,
    /// Whether the reward has been credited to the miners.
    pub distributed: bool,
}

pub struct BlockView {
    pub id: u64,
    pub coin: Coin,
    pub height: i64,
    pub hash: Seq<char>,
    pub reward: u64,
    pub finder: Seq<char>,
    pub finder_worker: Seq<char>,
    pub timestamp: i64,
    pub distributed: bool,
}

impl View for BlockFound {
    type V = BlockView;

    open spec fn view(&self) -> BlockView {
        BlockView {
            id: self.id,
            coin: self.coin,
            height: self.block_height,
            hash: self.block_hash@,
            reward: self.reward,
            finder: self.finder_wallet@,
            finder_worker: self.finder_worker@,
            timestamp: self.timestamp,
            distributed: self.distributed,
        }
    }
}

/// The four tables of the ledger as sequences of rows, in insertion order.
pub struct LedgerView {
    pub shares: Seq<ShareView>,
    pub balances: Seq<BalanceView>,
    pub payments: Seq<PaymentView>,
    pub blocks: Seq<BlockView>,
}

pub open spec fn is_balance_of(b: BalanceView, coin: Coin, address: Seq<char>) -> bool {
    b.coin == coin && b.address == address
}

/// Index of the first balance row of `(address, coin)` at or after `start`.
pub open spec fn find_balance_from(
    rows: Seq<BalanceView>,
    coin: Coin,
    address: Seq<char>,
    start: int,
) -> Option<int>
    decreases rows.len() - start,
{
    if start < 0 || start >= rows.len() {
        None
    } else if is_balance_of(rows[start], coin, address) {
        Some(start)
    } else {
        find_balance_from(rows, coin, address, start + 1)
    }
}

pub open spec fn find_balance(rows: Seq<BalanceView>, coin: Coin, address: Seq<char>) -> Option<int> {
    find_balance_from(rows, coin, address, 0)
}

/// Index of the first payment row with this id at or after `start`.
pub open spec fn find_payment_from(rows: Seq<PaymentView>, id: Seq<char>, start: int) -> Option<int>
    decreases rows.len() - start,
{
    if start < 0 || start >= rows.len() {
        None
    } else if rows[start].id == id {
        Some(start)
    } else {
        find_payment_from(rows, id, start + 1)
    }
}

pub open spec fn find_payment(rows: Seq<PaymentView>, id: Seq<char>) -> Option<int> {
    find_payment_from(rows, id, 0)
}

/// Index of the first block row with this hash at or after `start`.
pub open spec fn find_block_from(rows: Seq<BlockView>, hash: Seq<char>, start: int) -> Option<int>
    decreases rows.len() - start,
{
    if start < 0 || start >= rows.len() {
        None
    } else if rows[start].hash == hash {
        Some(start)
    } else {
        find_block_from(rows, hash, start + 1)
    }
}

pub open spec fn find_block(rows: Seq<BlockView>, hash: Seq<char>) -> Option<int> {
    find_block_from(rows, hash, 0)
}

/// A balance row with nothing credited, paid or counted yet.
pub open spec fn fresh_balance(coin: Coin, address: Seq<char>) -> BalanceView {
    BalanceView {
        address,
        coin,
        pending: 0,
        total_paid: 0,
        total_shares: 0,
        last_share: None,
        last_payment: None,
    }
}

impl LedgerView {
    /// Row ids count up from 1, and each key names at most one row.
    pub open spec fn wf(self) -> bool {
        &&& forall|i: int| 0 <= i < self.shares.len() ==> self.shares[i].id == i + 1
        &&& forall|i: int| 0 <= i < self.blocks.len() ==> self.blocks[i].id == i + 1
        &&& forall|i: int, j: int|
            0 <= i < j < self.balances.len() ==> !is_balance_of(
                self.balances[j],
                self.balances[i].coin,
                self.balances[i].address,
            )
        &&& forall|i: int, j: int|
            0 <= i < j < self.payments.len() ==> self.payments[i].id != self.payments[j].id
        &&& forall|i: int, j: int|
            0 <= i < j < self.blocks.len() ==> self.blocks[i].hash != self.blocks[j].hash
    }

    /// The balances after one more share of `address` is counted at `now`;
    /// `None` where the share count would overflow.
    pub open spec fn balances_after_share(self, coin: Coin, address: Seq<char>, now: i64) -> Option<
        Seq<BalanceView>,
    > {
        match find_balance(self.balances, coin, address) {
            Some(i) => if self.balances[i].total_shares < u64::MAX {
                Some(
                    self.balances.update(
                        i,
                        BalanceView {
                            total_shares: (self.balances[i].total_shares + 1) as u64,
                            last_share: Some(now),
                            ..self.balances[i]
                        },
                    ),
                )
            } else {
                None
            },
            None => Some(
                self.balances.push(
                    BalanceView {
                        total_shares: 1,
                        last_share: Some(now),
                        ..fresh_balance(coin, address)
                    },
                ),
            ),
        }
    }

    /// The balances after `amount` is added to the pending balance of
    /// `address`; `None` where it would overflow.
    pub open spec fn balances_after_credit(self, coin: Coin, address: Seq<char>, amount: u64) -> Option<
        Seq<BalanceView>,
    > {
        credit_rows(self.balances, coin, address, amount)
    }
}

pub open spec fn credit_rows(rows: Seq<BalanceView>, coin: Coin, address: Seq<char>, amount: u64) -> Option<
    Seq<BalanceView>,
> {
    match find_balance(rows, coin, address) {
        Some(i) => if rows[i].pending + amount <= u64::MAX {
            Some(rows.update(i, BalanceView { pending: (rows[i].pending + amount) as u64, ..rows[i] }))
        } else {
            None
        },
        None => Some(rows.push(BalanceView { pending: amount, ..fresh_balance(coin, address) })),
    }
}

pub(crate) proof fn lemma_find_balance_index(rows: Seq<BalanceView>, coin: Coin, address: Seq<char>)
    requires
        find_balance(rows, coin, address) is Some,
    ensures
        0 <= find_balance(rows, coin, address)->0 < rows.len(),
{
    lemma_find_balance_some(rows, coin, address, 0);
}

proof fn lemma_find_balance_none(rows: Seq<BalanceView>, coin: Coin, address: Seq<char>, start: int)
    requires
        0 <= start,
        find_balance_from(rows, coin, address, start) is None,
    ensures
        forall|j: int| start <= j < rows.len() ==> !is_balance_of(rows[j], coin, address),
    decreases rows.len() - start,
{
    if start < rows.len() {
        lemma_find_balance_none(rows, coin, address, start + 1);
    }
}

proof fn lemma_find_balance_some(rows: Seq<BalanceView>, coin: Coin, address: Seq<char>, start: int)
    requires
        0 <= start,
        find_balance_from(rows, coin, address, start) is Some,
    ensures
        ({
            let i = find_balance_from(rows, coin, address, start)->0;
            start <= i < rows.len() && is_balance_of(rows[i], coin, address)
        }),
    decreases rows.len() - start,
{
    if start < rows.len() && !is_balance_of(rows[start], coin, address) {
        lemma_find_balance_some(rows, coin, address, start + 1);
    }
}


pub open spec fn balance_evolves(a: BalanceView, b: BalanceView) -> bool {
    &&& b.address == a.address
    &&& b.coin == a.coin
    &&& a.total_paid <= b.total_paid
}

pub open spec fn payment_evolves(a: PaymentView, b: PaymentView) -> bool {
    &&& b.id == a.id
    &&& b.coin == a.coin
    &&& b.address == a.address
    &&& b.amount == a.amount
    &&& b.created_at == a.created_at
    &&& a.status.is_terminal() ==> b == a
    &&& b.status == a.status || a.status.may_become(b.status)
}

pub open spec fn block_evolves(a: BlockView, b: BlockView) -> bool {
    &&& b == BlockView { distributed: b.distributed, ..a }
    &&& a.distributed ==> b.distributed
}

pub open spec fn str_opt_view(s: Option<&str>) -> Option<Seq<char>> {
    match s {
        Some(t) => Some(t@),
        None => None,
    }
}

impl LedgerView {
    pub open spec fn with_balances(self, balances: Seq<BalanceView>) -> LedgerView {
        LedgerView { balances, ..self }
    }

    /// `next` can follow `self`: no row is removed, shares never change,
    /// a balance's total paid never decreases, a payment only moves forward
    /// and is frozen once settled, and a block only ever gains its
    /// distributed flag.
    pub open spec fn evolves_to(self, next: LedgerView) -> bool {
        &&& self.shares.len() <= next.shares.len()
        &&& forall|i: int| 0 <= i < self.shares.len() ==> next.shares[i] == self.shares[i]
        &&& self.balances.len() <= next.balances.len()
        &&& forall|i: int|
            0 <= i < self.balances.len() ==> balance_evolves(self.balances[i], next.balances[i])
        &&& self.payments.len() <= next.payments.len()
        &&& forall|i: int|
            0 <= i < self.payments.len() ==> payment_evolves(self.payments[i], next.payments[i])
        &&& self.blocks.len() <= next.blocks.len()
        &&& forall|i: int| 0 <= i < self.blocks.len() ==> block_evolves(self.blocks[i], next.blocks[i])
    }

    /// The ledger after a share is recorded at `now` (where the balance
    /// update does not overflow).
    pub open spec fn after_record_share(
        self,
        coin: Coin,
        address: Seq<char>,
        worker: Seq<char>,
        difficulty: u64,
        block_height: Option<i64>,
        is_block: bool,
        now: i64,
    ) -> LedgerView {
        LedgerView {
            shares: self.shares.push(
                self.new_share(coin, address, worker, difficulty, block_height, is_block, now),
            ),
            balances: self.balances_after_share(coin, address, now)->0,
            ..self
        }
    }

    /// The share row that `record_share` appends.
    pub open spec fn new_share(
        self,
        coin: Coin,
        address: Seq<char>,
        worker: Seq<char>,
        difficulty: u64,
        block_height: Option<i64>,
        is_block: bool,
        now: i64,
    ) -> ShareView {
        ShareView {
            id: (self.shares.len() + 1) as u64,
            coin,
            address,
            worker,
            difficulty,
            timestamp: now,
            block_height,
            is_block,
        }
    }
}

pub(crate) proof fn lemma_evolves_refl(v: LedgerView)
    ensures
        v.evolves_to(v),
{
}

pub(crate) proof fn lemma_find_payment_none(rows: Seq<PaymentView>, id: Seq<char>, start: int)
    requires
        0 <= start,
        find_payment_from(rows, id, start) is None,
    ensures
        forall|j: int| start <= j < rows.len() ==> rows[j].id != id,
    decreases rows.len() - start,
{
    if start < rows.len() {
        lemma_find_payment_none(rows, id, start + 1);
    }
}

proof fn lemma_find_payment_some(rows: Seq<PaymentView>, id: Seq<char>, start: int)
    requires
        0 <= start,
        find_payment_from(rows, id, start) is Some,
    ensures
        ({
            let i = find_payment_from(rows, id, start)->0;
            start <= i < rows.len() && rows[i].id == id
        }),
    decreases rows.len() - start,
{
    if start < rows.len() && rows[start].id != id {
        lemma_find_payment_some(rows, id, start + 1);
    }
}

proof fn lemma_find_block_none(rows: Seq<BlockView>, hash: Seq<char>, start: int)
    requires
        0 <= start,
        find_block_from(rows, hash, start) is None,
    ensures
        forall|j: int| start <= j < rows.len() ==> rows[j].hash != hash,
    decreases rows.len() - start,
{
    if start < rows.len() {
        lemma_find_block_none(rows, hash, start + 1);
    }
}

proof fn lemma_find_block_some(rows: Seq<BlockView>, hash: Seq<char>, start: int)
    requires
        0 <= start,
        find_block_from(rows, hash, start) is Some,
    ensures
        ({
            let i = find_block_from(rows, hash, start)->0;
            start <= i < rows.len() && rows[i].hash == hash
        }),
    decreases rows.len() - start,
{
    if start < rows.len() && rows[start].hash != hash {
        lemma_find_block_some(rows, hash, start + 1);
    }
}

/// The balances after a confirmed payment of `amount` to `address`: the
/// pending balance drops by the amount (never below zero), the total paid
/// grows by it. `None` where the total paid would overflow. A payment to an
/// address without a balance row changes nothing.
pub open spec fn settle_rows(
    rows: Seq<BalanceView>,
    coin: Coin,
    address: Seq<char>,
    amount: u64,
    now: i64,
) -> Option<Seq<BalanceView>> {
    match find_balance(rows, coin, address) {
        Some(j) => if rows[j].total_paid + amount <= u64::MAX {
            Some(
                rows.update(
                    j,
                    BalanceView {
                        pending: if rows[j].pending >= amount {
                            (rows[j].pending - amount) as u64
                        } else {
                            0
                        },
                        total_paid: (rows[j].total_paid + amount) as u64,
                        last_payment: Some(now),
                        ..rows[j]
                    },
                ),
            )
        } else {
            None
        },
        None => Some(rows),
    }
}

impl LedgerView {
    /// The ledger after `record_block`: unchanged if a block with this hash
    /// is already recorded, else with a new undistributed block row.
    pub open spec fn after_record_block(
        self,
        coin: Coin,
        height: i64,
        hash: Seq<char>,
        reward: u64,
        finder: Seq<char>,
        finder_worker: Seq<char>,
        now: i64,
    ) -> LedgerView {
        if find_block(self.blocks, hash) is Some {
            self
        } else {
            LedgerView {
                blocks: self.blocks.push(
                    BlockView {
                        id: (self.blocks.len() + 1) as u64,
                        coin,
                        height,
                        hash,
                        reward,
                        finder,
                        finder_worker,
                        timestamp: now,
                        distributed: false,
                    },
                ),
                ..self
            }
        }
    }

    /// The ledger after block `id` is marked distributed.
    pub open spec fn after_mark_distributed(self, id: u64) -> LedgerView {
        if 1 <= id <= self.blocks.len() {
            LedgerView {
                blocks: self.blocks.update(
                    id - 1,
                    BlockView { distributed: true, ..self.blocks[id - 1] },
                ),
                ..self
            }
        } else {
            self
        }
    }

    /// The ledger after a payment with this id is created, in status
    /// `Pending`, at `now`.
    pub open spec fn after_create_payment(
        self,
        id: Seq<char>,
        coin: Coin,
        address: Seq<char>,
        amount: u64,
        now: i64,
    ) -> LedgerView {
        LedgerView {
            payments: self.payments.push(
                PaymentView {
                    id,
                    coin,
                    address,
                    amount,
                    tx_hash: None,
                    status: PaymentStatus::Pending,
                    created_at: now,
                    confirmed_at: None,
                    error: None,
                },
            ),
            ..self
        }
    }

    /// The ledger after the payment `id` is moved to `status`. An unknown id
    /// changes nothing. A settled payment, or a move backwards, is refused.
    /// Becoming `Confirmed` settles the amount on the miner's balance in the
    /// same write.
    pub open spec fn after_status_update(
        self,
        id: Seq<char>,
        status: PaymentStatus,
        tx_hash: Option<Seq<char>>,
        error: Option<Seq<char>>,
        now: i64,
    ) -> Result<LedgerView, LedgerError> {
        match find_payment(self.payments, id) {
            None => Ok(self),
            Some(i) => {
                let p = self.payments[i];
                if !p.status.may_become(status) {
                    Err(LedgerError::InvalidTransition)
                } else {
                    let np = PaymentView {
                        status,
                        tx_hash: if tx_hash is Some {
                            tx_hash
                        } else {
                            p.tx_hash
                        },
                        confirmed_at: if status == PaymentStatus::Confirmed {
                            Some(now)
                        } else {
                            None
                        },
                        error,
                        ..p
                    };
                    if status == PaymentStatus::Confirmed {
                        match settle_rows(self.balances, p.coin, p.address, p.amount, now) {
                            Some(b) => Ok(
                                LedgerView { payments: self.payments.update(i, np), balances: b, ..self },
                            ),
                            None => Err(LedgerError::Overflow),
                        }
                    } else {
                        Ok(LedgerView { payments: self.payments.update(i, np), ..self })
                    }
                }
            },
        }
    }
}


pub open spec fn share_views(v: Seq<Share>) -> Seq<ShareView> {
    v.map_values(|s: Share| s@)
}

pub open spec fn balance_views(v: Seq<MinerBalance>) -> Seq<BalanceView> {
    v.map_values(|b: MinerBalance| b@)
}

pub open spec fn payment_views(v: Seq<Payment>) -> Seq<PaymentView> {
    v.map_values(|p: Payment| p@)
}

pub open spec fn block_views(v: Seq<BlockFound>) -> Seq<BlockView> {
    v.map_values(|b: BlockFound| b@)
}

pub open spec fn string_views(v: Seq<String>) -> Seq<Seq<char>> {
    v.map_values(|s: String| s@)
}

/// The balance rows of `coin` whose pending amount is at least `min`, in
/// ledger order.
pub open spec fn payable_rows(rows: Seq<BalanceView>, coin: Coin, min: u64) -> Seq<BalanceView>
    decreases rows.len(),
{
    if rows.len() == 0 {
        Seq::empty()
    } else {
        let rest = payable_rows(rows.drop_last(), coin, min);
        if rows.last().coin == coin && rows.last().pending >= min {
            rest.push(rows.last())
        } else {
            rest
        }
    }
}

pub open spec fn is_open_payment(p: PaymentView, coin: Coin) -> bool {
    p.coin == coin && (p.status == PaymentStatus::Pending || p.status == PaymentStatus::Processing)
}

/// The payments of `coin` that are `Pending` or `Processing`, in the order
/// they were created in the ledger.
pub open spec fn open_payment_rows(rows: Seq<PaymentView>, coin: Coin) -> Seq<PaymentView>
    decreases rows.len(),
{
    if rows.len() == 0 {
        Seq::empty()
    } else {
        let rest = open_payment_rows(rows.drop_last(), coin);
        if is_open_payment(rows.last(), coin) {
            rest.push(rows.last())
        } else {
            rest
        }
    }
}

/// The payments to `address` in `coin`, in ledger order.
pub open spec fn miner_payment_rows(rows: Seq<PaymentView>, coin: Coin, address: Seq<char>) -> Seq<
    PaymentView,
>
    decreases rows.len(),
{
    if rows.len() == 0 {
        Seq::empty()
    } else {
        let rest = miner_payment_rows(rows.drop_last(), coin, address);
        if rows.last().coin == coin && rows.last().address == address {
            rest.push(rows.last())
        } else {
            rest
        }
    }
}

/// Sort key of a creation time: the time itself for oldest first, its
/// negation for newest first.
pub open spec fn created_key(t: i64, newest_first: bool) -> int {
    if newest_first {
        -t
    } else {
        t as int
    }
}

/// Index of the first payment at or after `start` that sorts after a
/// payment created at `t`, or the length when there is none.
pub open spec fn first_after_from(s: Seq<PaymentView>, t: i64, newest_first: bool, start: int) -> int
    decreases s.len() - start,
{
    if start < 0 || start >= s.len() {
        s.len() as int
    } else if created_key(s[start].created_at, newest_first) > created_key(t, newest_first) {
        start
    } else {
        first_after_from(s, t, newest_first, start + 1)
    }
}

/// The payments ordered by `created_at` (oldest first, or newest first);
/// payments created at the same time keep the order they are given in.
pub open spec fn created_order(s: Seq<PaymentView>, newest_first: bool) -> Seq<PaymentView>
    decreases s.len(),
{
    if s.len() == 0 {
        Seq::empty()
    } else {
        let r = created_order(s.drop_last(), newest_first);
        r.insert(first_after_from(r, s.last().created_at, newest_first, 0), s.last())
    }
}

pub open spec fn sorted_by_created(s: Seq<PaymentView>, newest_first: bool) -> bool {
    forall|i: int, j: int|
        0 <= i < j < s.len() ==> created_key(s[i].created_at, newest_first) <= created_key(
            s[j].created_at,
            newest_first,
        )
}

proof fn lemma_first_after_range(s: Seq<PaymentView>, t: i64, newest_first: bool, start: int)
    requires
        0 <= start <= s.len(),
    ensures
        start <= first_after_from(s, t, newest_first, start) <= s.len(),
    decreases s.len() - start,
{
    if start < s.len() {
        lemma_first_after_range(s, t, newest_first, start + 1);
    }
}

proof fn lemma_created_order_len(s: Seq<PaymentView>, newest_first: bool)
    ensures
        created_order(s, newest_first).len() == s.len(),
    decreases s.len(),
{
    if s.len() > 0 {
        lemma_created_order_len(s.drop_last(), newest_first);
        let r = created_order(s.drop_last(), newest_first);
        lemma_first_after_range(r, s.last().created_at, newest_first, 0);
    }
}

fn sorts_after(c: i64, t: i64, newest_first: bool) -> (r: bool)
    ensures
        r == (created_key(c, newest_first) > created_key(t, newest_first)),
{
    if newest_first {
        c < t
    } else {
        c > t
    }
}

/// The same payments in `created_order`.
fn sort_by_created(rows: &Vec<Payment>, newest_first: bool) -> (r: Vec<Payment>)
    ensures
        payment_views(r@) == created_order(payment_views(rows@), newest_first),
        sorted_by_created(payment_views(r@), newest_first),
{
    let ghost all = payment_views(rows@);
    let mut out: Vec<Payment> = Vec::new();
    let mut i: usize = 0;
    proof {
        assert(payment_views(out@) =~= Seq::<PaymentView>::empty());
        assert(all.take(0) =~= Seq::<PaymentView>::empty());
    }
    while i < rows.len()
        invariant
            0 <= i <= rows.len(),
            all == payment_views(rows@),
            sorted_by_created(payment_views(out@), newest_first),
            payment_views(out@) == created_order(all.take(i as int), newest_first),
        decreases rows.len() - i,
    {
        let row = rows[i].copy();
        let t = row.created_at;
        let ghost before = payment_views(out@);
        let mut j: usize = 0;
        while j < out.len() && !sorts_after(out[j].created_at, t, newest_first)
            invariant
                0 <= j <= out.len(),
                before == payment_views(out@),
                forall|m: int|
                    0 <= m < j ==> created_key(#[trigger] before[m].created_at, newest_first) <= created_key(
                        t,
                        newest_first,
                    ),
                first_after_from(before, t, newest_first, 0) == first_after_from(before, t, newest_first, j as int),
            decreases out.len() - j,
        {
            proof {
                assert(before[j as int] == out@[j as int]@);
            }
            j = j + 1;
        }
        proof {
            if j < out.len() {
                assert(before[j as int] == out@[j as int]@);
            }
            assert(first_after_from(before, t, newest_first, j as int) == j);
        }
        let ghost item = row@;
        proof {
            assert(item == all[i as int]);
            assert(all.take(i + 1).drop_last() =~= all.take(i as int));
            assert(created_order(all.take(i + 1), newest_first) == before.insert(j as int, item));
        }
        out.insert(j, row);
        proof {
            let after = payment_views(out@);
            let k = created_key(t, newest_first);
            assert(after =~= before.insert(j as int, item));
            assert forall|a: int, b: int| 0 <= a < b < after.len() implies created_key(
                after[a].created_at,
                newest_first,
            ) <= created_key(after[b].created_at, newest_first) by {
                if b < j {
                } else if b == j {
                    assert(after[a] == before[a]);
                } else if a < j {
                    assert(after[b] == before[b - 1]);
                    if j < before.len() {
                        assert(created_key(before[j as int].created_at, newest_first) > k);
                        assert(created_key(before[j as int].created_at, newest_first) <= created_key(
                            before[b - 1].created_at,
                            newest_first,
                        ));
                    }
                } else if a == j {
                    assert(after[b] == before[b - 1]);
                    assert(created_key(before[j as int].created_at, newest_first) > k);
                    if j < b - 1 {
                        assert(created_key(before[j as int].created_at, newest_first) <= created_key(
                            before[b - 1].created_at,
                            newest_first,
                        ));
                    }
                } else {
                    assert(after[a] == before[a - 1]);
                    assert(after[b] == before[b - 1]);
                }
            }
        }
        i = i + 1;
    }
    proof {
        assert(all.take(i as int) =~= all);
    }
    out
}

/// The blocks of `coin` whose reward is not yet distributed, in ledger order.
pub open spec fn undistributed_rows(rows: Seq<BlockView>, coin: Coin) -> Seq<BlockView>
    decreases rows.len(),
{
    if rows.len() == 0 {
        Seq::empty()
    } else {
        let rest = undistributed_rows(rows.drop_last(), coin);
        if rows.last().coin == coin && !rows.last().distributed {
            rest.push(rows.last())
        } else {
            rest
        }
    }
}

pub open spec fn in_window(s: ShareView, coin: Coin, from: i64, to: i64) -> bool {
    s.coin == coin && from <= s.timestamp <= to
}

/// Number of shares of `coin` recorded in `[from, to]`.
pub open spec fn window_count(rows: Seq<ShareView>, coin: Coin, from: i64, to: i64) -> nat
    decreases rows.len(),
{
    if rows.len() == 0 {
        0
    } else {
        window_count(rows.drop_last(), coin, from, to) + if in_window(rows.last(), coin, from, to) {
            1nat
        } else {
            0nat
        }
    }
}

/// Number of shares of `address` in `coin` recorded in `[from, to]`.
pub open spec fn miner_window_count(
    rows: Seq<ShareView>,
    coin: Coin,
    address: Seq<char>,
    from: i64,
    to: i64,
) -> nat
    decreases rows.len(),
{
    if rows.len() == 0 {
        0
    } else {
        miner_window_count(rows.drop_last(), coin, address, from, to) + if in_window(
            rows.last(),
            coin,
            from,
            to,
        ) && rows.last().address == address {
            1nat
        } else {
            0nat
        }
    }
}

/// The distinct addresses with shares of `coin` in `[from, to]`, in the
/// order of their first share there.
pub open spec fn window_miners(rows: Seq<ShareView>, coin: Coin, from: i64, to: i64) -> Seq<Seq<char>>
    decreases rows.len(),
{
    if rows.len() == 0 {
        Seq::empty()
    } else {
        let rest = window_miners(rows.drop_last(), coin, from, to);
        if in_window(rows.last(), coin, from, to) && !rest.contains(rows.last().address) {
            rest.push(rows.last().address)
        } else {
            rest
        }
    }
}

fn copy_text(s: &Option<String>) -> (r: Option<String>)
    ensures
        opt_view(r) == opt_view(*s),
{
    match s {
        Some(t) => Some(t.clone()),
        None => None,
    }
}

impl Share {
    pub fn copy(&self) -> (r: Share)
        ensures
            r@ == self@,
    {
        Share {
            id: self.id,
            coin: self.coin,
            wallet_address: self.wallet_address.clone(),
            worker_name: self.worker_name.clone(),
            difficulty: self.difficulty,
            timestamp: self.timestamp,
            block_height: self.block_height,
            is_block: self.is_block,
        }
    }
}

impl MinerBalance {
    pub fn copy(&self) -> (r: MinerBalance)
        ensures
            r@ == self@,
    {
        MinerBalance {
            wallet_address: self.wallet_address.clone(),
            coin: self.coin,
            pending_balance: self.pending_balance,
            total_paid: self.total_paid,
            total_shares: self.total_shares,
            last_share: self.last_share,
            last_payment: self.last_payment,
        }
    }
}

impl Payment {
    pub fn copy(&self) -> (r: Payment)
        ensures
            r@ == self@,
    {
        Payment {
            id: self.id.clone(),
            coin: self.coin,
            wallet_address: self.wallet_address.clone(),
            amount: self.amount,
            tx_hash: copy_text(&self.tx_hash),
            status: self.status,
            created_at: self.created_at,
            confirmed_at: self.confirmed_at,
            error_message: copy_text(&self.error_message),
        }
    }
}

impl BlockFound {
    pub fn copy(&self) -> (r: BlockFound)
        ensures
            r@ == self@,
    {
        BlockFound {
            id: self.id,
            coin: self.coin,
            block_height: self.block_height,
            block_hash: self.block_hash.clone(),
            reward: self.reward,
            finder_wallet: self.finder_wallet.clone(),
            finder_worker: self.finder_worker.clone(),
            timestamp: self.timestamp,
            distributed: self.distributed,
        }
    }
}

fn contains_text(v: &Vec<String>, s: &String) -> (r: bool)
    ensures
        r == string_views(v@).contains(s@),
{
    let mut i: usize = 0;
    while i < v.len()
        invariant
            0 <= i <= v.len(),
            forall|j: int| 0 <= j < i ==> v@[j]@ != s@,
        decreases v.len() - i,
    {
        if v[i].eq(s) {
            proof {
                assert(string_views(v@)[i as int] == s@);
            }
            return true;
        }
        i = i + 1;
    }
    proof {
        if string_views(v@).contains(s@) {
            let k = choose|k: int| 0 <= k < string_views(v@).len() && string_views(v@)[k] == s@;
            assert(v@[k]@ == s@);
        }
    }
    false
}

/// Relies on std's `SystemTime::now`, chrono's `From<SystemTime>` for
/// `DateTime<Utc>` (which also takes clocks before 1970) and
/// `DateTime::timestamp`: the current time in Unix seconds. Nothing is
/// promised of its value.
#[verifier::external_body]
pub(crate) fn now_unix() -> (r: i64) {
    chrono::DateTime::<chrono::Utc>::from(std::time::SystemTime::now()).timestamp()
}

/// Across any sequence of ledger operations, rows are never removed, a
/// balance's total paid never decreases, and a payment only moves forward
/// along `Pending -> Processing -> {Confirmed, Failed}` and never changes once
/// settled: the relation every operation guarantees composes.
pub proof fn lemma_evolves_trans(a: LedgerView, b: LedgerView, c: LedgerView)
    requires
        a.evolves_to(b),
        b.evolves_to(c),
    ensures
        a.evolves_to(c),
{
    assert forall|i: int| 0 <= i < a.payments.len() implies payment_evolves(a.payments[i], c.payments[i]) by {
        let (x, y, z) = (a.payments[i], b.payments[i], c.payments[i]);
        assert(payment_evolves(x, y));
        assert(payment_evolves(y, z));
    }
    assert forall|i: int| 0 <= i < a.blocks.len() implies block_evolves(a.blocks[i], c.blocks[i]) by {
        assert(block_evolves(a.blocks[i], b.blocks[i]));
        assert(block_evolves(b.blocks[i], c.blocks[i]));
    }
    assert forall|i: int| 0 <= i < a.balances.len() implies balance_evolves(a.balances[i], c.balances[i]) by {
        assert(balance_evolves(a.balances[i], b.balances[i]));
        assert(balance_evolves(b.balances[i], c.balances[i]));
    }
}

/// Marking a block distributed a second time changes nothing.
pub proof fn lemma_mark_distributed_idempotent(v: LedgerView, id: u64)
    ensures
        v.after_mark_distributed(id).after_mark_distributed(id) == v.after_mark_distributed(id),
{
    let w = v.after_mark_distributed(id);
    if 1 <= id <= v.blocks.len() {
        assert(w.blocks[id - 1] == BlockView { distributed: true, ..w.blocks[id - 1] });
        assert(w.blocks.update(id - 1, BlockView { distributed: true, ..w.blocks[id - 1] }) =~= w.blocks);
    }
}

proof fn lemma_find_block_unique(rows: Seq<BlockView>, hash: Seq<char>, i: int, start: int)
    requires
        0 <= start <= i < rows.len(),
        rows[i].hash == hash,
        forall|a: int, b: int| 0 <= a < b < rows.len() ==> rows[a].hash != rows[b].hash,
    ensures
        find_block_from(rows, hash, start) == Some(i),
    decreases i - start,
{
    if start < i {
        lemma_find_block_unique(rows, hash, i, start + 1);
    }
}

proof fn lemma_pushed_block_found(rows: Seq<BlockView>, row: BlockView)
    requires
        forall|a: int, b: int| 0 <= a < b < rows.len() ==> rows[a].hash != rows[b].hash,
        forall|j: int| 0 <= j < rows.len() ==> rows[j].hash != row.hash,
    ensures
        find_block(rows.push(row), row.hash) == Some(rows.len() as int),
        forall|j: int| 0 <= j < rows.len() ==> rows.push(row)[j].hash != row.hash,
{
    let w = rows.push(row);
    assert forall|a: int, b: int| 0 <= a < b < w.len() implies w[a].hash != w[b].hash by {
        if b == rows.len() {
            assert(rows[a].hash != row.hash);
        }
    }
    lemma_find_block_unique(w, row.hash, rows.len() as int, 0);
}

pub(crate) proof fn lemma_find_payment_absent(rows: Seq<PaymentView>, id: Seq<char>, start: int)
    requires
        0 <= start,
        forall|j: int| 0 <= j < rows.len() ==> rows[j].id != id,
    ensures
        find_payment_from(rows, id, start) is None,
    decreases rows.len() - start,
{
    if start < rows.len() {
        lemma_find_payment_absent(rows, id, start + 1);
    }
}

pub(crate) proof fn lemma_find_payment_unique(rows: Seq<PaymentView>, id: Seq<char>, i: int, start: int)
    requires
        0 <= start <= i < rows.len(),
        rows[i].id == id,
        forall|a: int, b: int| 0 <= a < b < rows.len() ==> rows[a].id != rows[b].id,
    ensures
        find_payment_from(rows, id, start) == Some(i),
    decreases i - start,
{
    if start < i {
        lemma_find_payment_unique(rows, id, i, start + 1);
    }
}

/// Recording the same block hash twice leaves exactly one row with that
/// hash, and the second recording changes nothing.
#[verifier::rlimit(60)]
pub proof fn lemma_record_block_idempotent(
    v: LedgerView,
    coin: Coin,
    height: i64,
    hash: Seq<char>,
    reward: u64,
    finder: Seq<char>,
    finder_worker: Seq<char>,
    now: i64,
    coin2: Coin,
    height2: i64,
    reward2: u64,
    finder2: Seq<char>,
    finder_worker2: Seq<char>,
    now2: i64,
)
    requires
        forall|a: int, b: int| 0 <= a < b < v.blocks.len() ==> v.blocks[a].hash != v.blocks[b].hash,
    ensures
        ({
            let w = v.after_record_block(coin, height, hash, reward, finder, finder_worker, now);
            let x = w.after_record_block(coin2, height2, hash, reward2, finder2, finder_worker2, now2);
            &&& x == w
            &&& exists|i: int|
                0 <= i < x.blocks.len() && x.blocks[i].hash == hash && forall|j: int|
                    0 <= j < x.blocks.len() && j != i ==> x.blocks[j].hash != hash
        }),
{
    let w = v.after_record_block(coin, height, hash, reward, finder, finder_worker, now);
    match find_block(v.blocks, hash) {
        Some(i) => {
            lemma_find_block_some(v.blocks, hash, 0);
            assert(w == v);
            assert(w.after_record_block(coin2, height2, hash, reward2, finder2, finder_worker2, now2) == w);
            assert(w.blocks[i].hash == hash);
            assert(forall|j: int| 0 <= j < w.blocks.len() && j != i ==> w.blocks[j].hash != hash);
        },
        None => {
            lemma_find_block_none(v.blocks, hash, 0);
            let i = v.blocks.len() as int;
            lemma_pushed_block_found(v.blocks, w.blocks[i]);
            assert(w.blocks =~= v.blocks.push(w.blocks[i]));
            assert(w.after_record_block(coin2, height2, hash, reward2, finder2, finder_worker2, now2) == w);
            assert(w.blocks[i].hash == hash);
        },
    }
}

/// Lowest height first.
pub open spec fn by_height(s: Seq<BlockView>) -> bool {
    forall|i: int, j: int| 0 <= i < j < s.len() ==> s[i].height <= s[j].height
}

/// Index of the first row at or after `start` that is higher than `h`, or
/// the length when there is none.
pub open spec fn first_higher_from(s: Seq<BlockView>, h: i64, start: int) -> int
    decreases s.len() - start,
{
    if start < 0 || start >= s.len() {
        s.len() as int
    } else if s[start].height > h {
        start
    } else {
        first_higher_from(s, h, start + 1)
    }
}

/// The rows ordered by height, lowest first; rows of equal height keep the
/// order they are given in.
pub open spec fn height_order(s: Seq<BlockView>) -> Seq<BlockView>
    decreases s.len(),
{
    if s.len() == 0 {
        Seq::empty()
    } else {
        let r = height_order(s.drop_last());
        r.insert(first_higher_from(r, s.last().height, 0), s.last())
    }
}

/// Ids of distinct rows differ.
pub open spec fn distinct_ids(s: Seq<BlockView>) -> bool {
    forall|a: int, b: int| 0 <= a < b < s.len() ==> s[a].id != s[b].id
}

/// The same rows in `height_order`.
fn sort_by_height(rows: &Vec<BlockFound>) -> (r: Vec<BlockFound>)
    requires
        distinct_ids(block_views(rows@)),
    ensures
        block_views(r@) == height_order(block_views(rows@)),
        block_views(r@).to_multiset() == block_views(rows@).to_multiset(),
        by_height(block_views(r@)),
        distinct_ids(block_views(r@)),
        forall|a: int|
            0 <= a < r@.len() ==> exists|m: int|
                0 <= m < rows@.len() && #[trigger] block_views(r@)[a] == block_views(rows@)[m],
{
    let ghost all = block_views(rows@);
    let mut out: Vec<BlockFound> = Vec::new();
    let mut i: usize = 0;
    proof {
        assert(block_views(out@) =~= all.take(0));
        assert(all.take(0) =~= Seq::<BlockView>::empty());
    }
    while i < rows.len()
        invariant
            0 <= i <= rows.len(),
            all == block_views(rows@),
            distinct_ids(all),
            by_height(block_views(out@)),
            distinct_ids(block_views(out@)),
            block_views(out@) == height_order(all.take(i as int)),
            block_views(out@).to_multiset() == all.take(i as int).to_multiset(),
            forall|a: int|
                0 <= a < out@.len() ==> exists|m: int|
                    0 <= m < i && #[trigger] block_views(out@)[a] == all[m],
        decreases rows.len() - i,
    {
        let row = rows[i].copy();
        let height = row.block_height;
        let ghost before = block_views(out@);
        let mut j: usize = 0;
        while j < out.len() && out[j].block_height <= height
            invariant
                0 <= j <= out.len(),
                before == block_views(out@),
                forall|m: int| 0 <= m < j ==> out@[m].block_height <= height,
                first_higher_from(before, height, 0) == first_higher_from(before, height, j as int),
            decreases out.len() - j,
        {
            proof {
                assert(before[j as int] == out@[j as int]@);
            }
            j = j + 1;
        }
        proof {
            if j < out.len() {
                assert(before[j as int] == out@[j as int]@);
            }
            assert(first_higher_from(before, height, j as int) == j);
        }
        let ghost item = row@;
        proof {
            assert(item == all[i as int]);
            assert(all.take(i + 1) =~= all.take(i as int).push(item));
            assert(all.take(i + 1).drop_last() =~= all.take(i as int));
            assert(height_order(all.take(i + 1)) == before.insert(j as int, item));
            vstd::seq_lib::to_multiset_build(all.take(i as int), item);
            vstd::seq_lib::to_multiset_insert(before, j as int, item);
        }
        out.insert(j, row);
        proof {
            let after = block_views(out@);
            assert(after =~= before.insert(j as int, item));
            assert forall|a: int, b: int| 0 <= a < b < after.len() implies after[a].height
                <= after[b].height by {
                if b < j {
                } else if b == j {
                    assert(after[a] == before[a]);
                } else if a < j {
                    assert(after[b] == before[b - 1]);
                    if j < before.len() {
                        assert(before[j as int].height > height);
                        assert(before[j as int].height <= before[b - 1].height);
                    }
                } else if a == j {
                    assert(after[b] == before[b - 1]);
                    assert(before[j as int].height > height);
                    if j < b - 1 {
                        assert(before[j as int].height <= before[b - 1].height);
                    }
                } else {
                    assert(after[a] == before[a - 1]);
                    assert(after[b] == before[b - 1]);
                }
            }
            assert forall|a: int| 0 <= a < after.len() implies exists|m: int|
                0 <= m < i + 1 && #[trigger] after[a] == all[m] by {
                if a < j {
                    assert(after[a] == before[a]);
                    let m = choose|m: int| 0 <= m < i && #[trigger] before[a] == all[m];
                    assert(after[a] == all[m]);
                } else if a == j {
                    assert(after[a] == all[i as int]);
                } else {
                    assert(after[a] == before[a - 1]);
                    let m = choose|m: int| 0 <= m < i && #[trigger] before[a - 1] == all[m];
                    assert(after[a] == all[m]);
                }
            }
            assert forall|a: int, b: int| 0 <= a < b < after.len() implies after[a].id != after[b].id by {
                let ma = choose|m: int| 0 <= m < i + 1 && #[trigger] after[a] == all[m];
                let mb = choose|m: int| 0 <= m < i + 1 && #[trigger] after[b] == all[m];
                if ma == mb {
                    if a < j && b < j {
                        assert(after[a] == before[a] && after[b] == before[b]);
                    } else if a < j && b == j {
                        let m = choose|m: int| 0 <= m < i && #[trigger] before[a] == all[m];
                        assert(after[a] == before[a]);
                    } else if a < j {
                        assert(after[a] == before[a] && after[b] == before[b - 1]);
                    } else if a == j {
                        assert(after[b] == before[b - 1]);
                        let m = choose|m: int| 0 <= m < i && #[trigger] before[b - 1] == all[m];
                    } else {
                        assert(after[a] == before[a - 1] && after[b] == before[b - 1]);
                    }
                }
            }
        }
        i = i + 1;
    }
    proof {
        assert(all.take(i as int) =~= all);
    }
    out
}

/// `x` is the row of `blocks` under its own id, of `coin`, and waiting for
/// its reward to be distributed.
pub open spec fn is_waiting_block(blocks: Seq<BlockView>, coin: Coin, x: BlockView) -> bool {
    &&& 1 <= x.id <= blocks.len()
    &&& blocks[x.id - 1] == x
    &&& x.coin == coin
    &&& !x.distributed
}

/// A status update applies exactly when the payment may move forward to the
/// new status: then the row takes it; a backward move or an update of a
/// settled payment is refused and changes nothing.
pub proof fn lemma_status_update_moves_forward(
    v: LedgerView,
    id: Seq<char>,
    status: PaymentStatus,
    tx_hash: Option<Seq<char>>,
    error: Option<Seq<char>>,
    now: i64,
)
    requires
        find_payment(v.payments, id) is Some,
    ensures
        ({
            let i = find_payment(v.payments, id)->0;
            let s0 = v.payments[i].status;
            match v.after_status_update(id, status, tx_hash, error, now) {
                Ok(w) => s0.may_become(status) && w.payments[i].status == status && w.payments.len()
                    == v.payments.len(),
                Err(e) => e == LedgerError::InvalidTransition && !s0.may_become(status) || e
                    == LedgerError::Overflow && status == PaymentStatus::Confirmed,
            }
        }),
{
    lemma_find_payment_some(v.payments, id, 0);
}

/// Crediting adds exactly the amount to the miner's pending balance (a new
/// row starts from zero) and changes nothing else.
pub proof fn lemma_credit_adds_exactly(rows: Seq<BalanceView>, coin: Coin, address: Seq<char>, amount: u64)
    requires
        credit_rows(rows, coin, address, amount) is Some,
    ensures
        ({
            let after = credit_rows(rows, coin, address, amount)->0;
            match find_balance(rows, coin, address) {
                Some(j) => after.len() == rows.len() && after[j] == BalanceView {
                    pending: (rows[j].pending + amount) as u64,
                    ..rows[j]
                } && forall|m: int| 0 <= m < rows.len() && m != j ==> after[m] == rows[m],
                None => after.len() == rows.len() + 1 && after[rows.len() as int].pending == amount
                    && after[rows.len() as int].total_paid == 0 && forall|m: int|
                    0 <= m < rows.len() ==> after[m] == rows[m],
            }
        }),
{
    if find_balance(rows, coin, address) is Some {
        lemma_find_balance_some(rows, coin, address, 0);
    }
}

/// The ledger store.
pub struct Database {
    shares: Vec<Share>,
    balances: Vec<MinerBalance>,
    payments: Vec<Payment>,
    blocks: Vec<BlockFound>,
}

impl View for Database {
    type V = LedgerView;

    closed spec fn view(&self) -> LedgerView {
        LedgerView {
            shares: share_views(self.shares@),
            balances: balance_views(self.balances@),
            payments: payment_views(self.payments@),
            blocks: block_views(self.blocks@),
        }
    }
}

impl Database {
    /// An empty ledger.
    pub fn new() -> (r: Database)
        ensures
            r@.wf(),
            r@.shares.len() == 0,
            r@.balances.len() == 0,
            r@.payments.len() == 0,
            r@.blocks.len() == 0,
    {
        let r = Database { shares: Vec::new(), balances: Vec::new(), payments: Vec::new(), blocks: Vec::new() };
        proof {
            assert(r@.shares =~= Seq::empty());
            assert(r@.balances =~= Seq::empty());
            assert(r@.payments =~= Seq::empty());
            assert(r@.blocks =~= Seq::empty());
        }
        r
    }

    /// Index of the balance row of `(address, coin)`, if there is one.
    fn balance_index(&self, coin: Coin, address: &str) -> (r: Option<usize>)
        ensures
            match r {
                Some(i) => find_balance(self@.balances, coin, address@) == Some(i as int) && i
                    < self@.balances.len() && is_balance_of(self@.balances[i as int], coin, address@),
                None => find_balance(self@.balances, coin, address@) is None,
            },
    {
        let key = String::from_str(address);
        let mut i: usize = 0;
        while i < self.balances.len()
            invariant
                0 <= i <= self.balances.len(),
                key@ == address@,
                find_balance(self@.balances, coin, address@) == find_balance_from(
                    self@.balances,
                    coin,
                    address@,
                    i as int,
                ),
            decreases self.balances.len() - i,
        {
            let row = &self.balances[i];
            proof {
                assert(self@.balances[i as int] == row@);
            }
            let same_coin = row.coin == coin;
            let same_address = row.wallet_address.eq(&key);
            proof {
                assert(same_coin == (row@.coin == coin));
                assert(key@ == address@);
                assert(same_address == (row.wallet_address@ == key@));
                assert(row@.address == row.wallet_address@);
                assert(same_address == (row@.address == address@));
                assert(is_balance_of(self@.balances[i as int], coin, address@) == (same_coin && same_address));
            }
            if same_coin && same_address {
                return Some(i);
            }
            i = i + 1;
        }
        None
    }

    /// Appends a share recorded at `now` and, in the same write, counts it
    /// on the miner's balance row (creating the row if needed).
    pub fn record_share_at(
        &mut self,
        coin: Coin,
        wallet_address: &str,
        worker_name: &str,
        difficulty: u64,
        block_height: Option<i64>,
        is_block: bool,
        now: i64,
    ) -> (r: Result<u64, LedgerError>)
        requires
            old(self)@.wf(),
        ensures
            final(self)@.wf(),
            old(self)@.evolves_to(final(self)@),
            r is Ok <==> old(self)@.shares.len() < u64::MAX && old(self)@.balances_after_share(
                coin,
                wallet_address@,
                now,
            ) is Some,
            r matches Ok(id) ==> {
                &&& id == old(self)@.shares.len() + 1
                &&& final(self)@ == old(self)@.after_record_share(
                    coin,
                    wallet_address@,
                    worker_name@,
                    difficulty,
                    block_height,
                    is_block,
                    now,
                )
            },
            r is Err ==> final(self)@ == old(self)@,
    {
        let ghost v0 = self@;
        let n = self.shares.len() as u64;
        if n == u64::MAX {
            return Err(LedgerError::Overflow);
        }
        match self.balance_index(coin, wallet_address) {
            Some(i) => {
                if self.balances[i].total_shares == u64::MAX {
                    return Err(LedgerError::Overflow);
                }
                let count = self.balances[i].total_shares + 1;
                self.balances[i].total_shares = count;
                self.balances[i].last_share = Some(now);
                proof {
                    assert(self@.balances =~= v0.balances_after_share(coin, wallet_address@, now)->0);
                }
            },
            None => {
                let row = MinerBalance {
                    wallet_address: String::from_str(wallet_address),
                    coin,
                    pending_balance: 0,
                    total_paid: 0,
                    total_shares: 1,
                    last_share: Some(now),
                    last_payment: None,
                };
                self.balances.push(row);
                proof {
                    lemma_find_balance_none(v0.balances, coin, wallet_address@, 0);
                    assert(self@.balances =~= v0.balances_after_share(coin, wallet_address@, now)->0);
                }
            },
        }
        let share = Share {
            id: n + 1,
            coin,
            wallet_address: String::from_str(wallet_address),
            worker_name: String::from_str(worker_name),
            difficulty,
            timestamp: now,
            block_height,
            is_block,
        };
        self.shares.push(share);
        proof {
            assert(self@.shares =~= v0.shares.push(
                v0.new_share(coin, wallet_address@, worker_name@, difficulty, block_height, is_block, now),
            ));
            assert(self@.payments =~= v0.payments);
            assert(self@.blocks =~= v0.blocks);
        }
        Ok(n + 1)
    }

    /// Adds `amount` to the pending balance of `(wallet_address, coin)`,
    /// creating the row if needed.
    pub fn add_pending_balance(&mut self, coin: Coin, wallet_address: &str, amount: u64) -> (r: Result<
        (),
        LedgerError,
    >)
        requires
            old(self)@.wf(),
        ensures
            final(self)@.wf(),
            old(self)@.evolves_to(final(self)@),
            r is Ok <==> old(self)@.balances_after_credit(coin, wallet_address@, amount) is Some,
            r is Ok ==> final(self)@ == old(self)@.with_balances(
                old(self)@.balances_after_credit(coin, wallet_address@, amount)->0,
            ),
            r is Err ==> final(self)@ == old(self)@,
    {
        let ghost v0 = self@;
        match self.balance_index(coin, wallet_address) {
            Some(i) => {
                let pending = self.balances[i].pending_balance;
                if pending > u64::MAX - amount {
                    return Err(LedgerError::Overflow);
                }
                self.balances[i].pending_balance = pending + amount;
                proof {
                    assert(self@.balances =~= v0.balances_after_credit(coin, wallet_address@, amount)->0);
                }
            },
            None => {
                let row = MinerBalance {
                    wallet_address: String::from_str(wallet_address),
                    coin,
                    pending_balance: amount,
                    total_paid: 0,
                    total_shares: 0,
                    last_share: None,
                    last_payment: None,
                };
                self.balances.push(row);
                proof {
                    lemma_find_balance_none(v0.balances, coin, wallet_address@, 0);
                    assert(self@.balances =~= v0.balances_after_credit(coin, wallet_address@, amount)->0);
                }
            },
        }
        proof {
            assert(self@.shares =~= v0.shares);
            assert(self@.payments =~= v0.payments);
            assert(self@.blocks =~= v0.blocks);
        }
        Ok(())
    }

    fn payment_index(&self, id: &str) -> (r: Option<usize>)
        ensures
            match r {
                Some(i) => find_payment(self@.payments, id@) == Some(i as int) && i
                    < self@.payments.len() && self@.payments[i as int].id == id@,
                None => find_payment(self@.payments, id@) is None,
            },
    {
        let key = String::from_str(id);
        let mut i: usize = 0;
        while i < self.payments.len()
            invariant
                0 <= i <= self.payments.len(),
                key@ == id@,
                find_payment(self@.payments, id@) == find_payment_from(self@.payments, id@, i as int),
            decreases self.payments.len() - i,
        {
            let same = self.payments[i].id.eq(&key);
            proof {
                assert(self@.payments[i as int] == self.payments@[i as int]@);
            }
            if same {
                return Some(i);
            }
            i = i + 1;
        }
        None
    }

    fn block_index(&self, hash: &str) -> (r: Option<usize>)
        ensures
            match r {
                Some(i) => find_block(self@.blocks, hash@) == Some(i as int) && i
                    < self@.blocks.len() && self@.blocks[i as int].hash == hash@,
                None => find_block(self@.blocks, hash@) is None,
            },
    {
        let key = String::from_str(hash);
        let mut i: usize = 0;
        while i < self.blocks.len()
            invariant
                0 <= i <= self.blocks.len(),
                key@ == hash@,
                find_block(self@.blocks, hash@) == find_block_from(self@.blocks, hash@, i as int),
            decreases self.blocks.len() - i,
        {
            let same = self.blocks[i].block_hash.eq(&key);
            proof {
                assert(self@.blocks[i as int] == self.blocks@[i as int]@);
            }
            if same {
                return Some(i);
            }
            i = i + 1;
        }
        None
    }

    /// Records a block found at `now`, keyed by its hash: a hash that is
    /// already recorded leaves the ledger unchanged. Returns the id of the
    /// row that holds the hash.
    pub fn record_block_at(
        &mut self,
        coin: Coin,
        block_height: i64,
        block_hash: &str,
        reward: u64,
        finder_wallet: &str,
        finder_worker: &str,
        now: i64,
    ) -> (r: Result<u64, LedgerError>)
        requires
            old(self)@.wf(),
        ensures
            final(self)@.wf(),
            old(self)@.evolves_to(final(self)@),
            r is Ok <==> find_block(old(self)@.blocks, block_hash@) is Some || old(self)@.blocks.len()
                < u64::MAX,
            r is Ok ==> final(self)@ == old(self)@.after_record_block(
                coin,
                block_height,
                block_hash@,
                reward,
                finder_wallet@,
                finder_worker@,
                now,
            ),
            r matches Ok(id) ==> 1 <= id <= final(self)@.blocks.len() && final(self)@.blocks[id
                - 1].hash == block_hash@,
            r is Err ==> final(self)@ == old(self)@,
    {
        let ghost v0 = self@;
        match self.block_index(block_hash) {
            Some(i) => {
                proof {
                    lemma_evolves_refl(v0);
                }
                Ok(self.blocks[i].id)
            },
            None => {
                let n = self.blocks.len() as u64;
                if n == u64::MAX {
                    return Err(LedgerError::Overflow);
                }
                let row = BlockFound {
                    id: n + 1,
                    coin,
                    block_height,
                    block_hash: String::from_str(block_hash),
                    reward,
                    finder_wallet: String::from_str(finder_wallet),
                    finder_worker: String::from_str(finder_worker),
                    timestamp: now,
                    distributed: false,
                };
                self.blocks.push(row);
                proof {
                    lemma_find_block_none(v0.blocks, block_hash@, 0);
                    assert(self@.blocks =~= v0.after_record_block(
                        coin,
                        block_height,
                        block_hash@,
                        reward,
                        finder_wallet@,
                        finder_worker@,
                        now,
                    ).blocks);
                    assert(self@.shares =~= v0.shares);
                    assert(self@.balances =~= v0.balances);
                    assert(self@.payments =~= v0.payments);
                }
                Ok(n + 1)
            },
        }
    }

    /// Sets the distributed flag of block `block_id`; marking a block twice
    /// is the same as marking it once.
    pub fn mark_block_distributed(&mut self, block_id: u64)
        requires
            old(self)@.wf(),
        ensures
            final(self)@.wf(),
            old(self)@.evolves_to(final(self)@),
            final(self)@ == old(self)@.after_mark_distributed(block_id),
    {
        let ghost v0 = self@;
        if block_id >= 1 && block_id <= self.blocks.len() as u64 {
            let i = (block_id - 1) as usize;
            self.blocks[i].distributed = true;
            proof {
                assert(self@.blocks =~= v0.after_mark_distributed(block_id).blocks);
                assert(self@.shares =~= v0.shares);
                assert(self@.balances =~= v0.balances);
                assert(self@.payments =~= v0.payments);
            }
        } else {
            proof {
                lemma_evolves_refl(v0);
            }
        }
    }

    /// Creates a payment with the given id in status `Pending`. An id that
    /// is already taken is refused.
    pub fn create_payment_with_id(
        &mut self,
        id: &str,
        coin: Coin,
        wallet_address: &str,
        amount: u64,
        now: i64,
    ) -> (r: Result<String, LedgerError>)
        requires
            old(self)@.wf(),
        ensures
            final(self)@.wf(),
            old(self)@.evolves_to(final(self)@),
            r is Ok <==> find_payment(old(self)@.payments, id@) is None,
            r matches Ok(s) ==> s@ == id@ && final(self)@ == old(self)@.after_create_payment(
                id@,
                coin,
                wallet_address@,
                amount,
                now,
            ),
            r matches Err(e) ==> e == LedgerError::DuplicatePaymentId && final(self)@ == old(self)@,
    {
        let ghost v0 = self@;
        if self.payment_index(id).is_some() {
            proof {
                lemma_evolves_refl(v0);
            }
            return Err(LedgerError::DuplicatePaymentId);
        }
        let row = Payment {
            id: String::from_str(id),
            coin,
            wallet_address: String::from_str(wallet_address),
            amount,
            tx_hash: None,
            status: PaymentStatus::Pending,
            created_at: now,
            confirmed_at: None,
            error_message: None,
        };
        self.payments.push(row);
        proof {
            lemma_find_payment_none(v0.payments, id@, 0);
            assert(self@.payments =~= v0.after_create_payment(id@, coin, wallet_address@, amount, now).payments);
            assert(self@.shares =~= v0.shares);
            assert(self@.balances =~= v0.balances);
            assert(self@.blocks =~= v0.blocks);
        }
        Ok(String::from_str(id))
    }

    /// Moves payment `payment_id` to `status` at `now`; see
    /// `LedgerView::after_status_update`.
    pub fn update_payment_status_at(
        &mut self,
        payment_id: &str,
        status: PaymentStatus,
        tx_hash: Option<&str>,
        error_message: Option<&str>,
        now: i64,
    ) -> (r: Result<(), LedgerError>)
        requires
            old(self)@.wf(),
        ensures
            final(self)@.wf(),
            old(self)@.evolves_to(final(self)@),
            match old(self)@.after_status_update(
                payment_id@,
                status,
                str_opt_view(tx_hash),
                str_opt_view(error_message),
                now,
            ) {
                Ok(v) => r is Ok && final(self)@ == v,
                Err(e) => r == Err::<(), LedgerError>(e) && final(self)@ == old(self)@,
            },
    {
        let ghost v0 = self@;
        let i = match self.payment_index(payment_id) {
            None => {
                proof {
                    lemma_evolves_refl(v0);
                }
                return Ok(());
            },
            Some(i) => i,
        };
        let current = self.payments[i].status;
        if !current.can_become(status) {
            proof {
                lemma_evolves_refl(v0);
            }
            return Err(LedgerError::InvalidTransition);
        }
        let is_confirm = status == PaymentStatus::Confirmed;
        if is_confirm {
            let coin = self.payments[i].coin;
            let amount = self.payments[i].amount;
            let address = self.payments[i].wallet_address.clone();
            match self.balance_index(coin, address.as_str()) {
                Some(j) => {
                    let paid = self.balances[j].total_paid;
                    if paid > u64::MAX - amount {
                        proof {
                            lemma_evolves_refl(v0);
                        }
                        return Err(LedgerError::Overflow);
                    }
                    let pending = self.balances[j].pending_balance;
                    self.balances[j].pending_balance = if pending >= amount {
                        pending - amount
                    } else {
                        0
                    };
                    self.balances[j].total_paid = paid + amount;
                    self.balances[j].last_payment = Some(now);
                },
                None => {},
            }
            proof {
                assert(self@.balances =~= settle_rows(
                    v0.balances,
                    v0.payments[i as int].coin,
                    v0.payments[i as int].address,
                    v0.payments[i as int].amount,
                    now,
                )->0);
            }
        }
        self.payments[i].status = status;
        match tx_hash {
            Some(t) => {
                self.payments[i].tx_hash = Some(String::from_str(t));
            },
            None => {},
        }
        self.payments[i].confirmed_at = if is_confirm {
            Some(now)
        } else {
            None
        };
        self.payments[i].error_message = match error_message {
            Some(e) => Some(String::from_str(e)),
            None => None,
        };
        proof {
            let v1 = v0.after_status_update(
                payment_id@,
                status,
                str_opt_view(tx_hash),
                str_opt_view(error_message),
                now,
            )->Ok_0;
            assert(self@.payments =~= v1.payments);
            assert(self@.balances =~= v1.balances);
            assert(self@.shares =~= v0.shares);
            assert(self@.blocks =~= v0.blocks);
        }
        Ok(())
    }

    /// The balances of `coin` whose pending amount is at least `min_payout`;
    /// a zero threshold gives every balance of the coin.
    pub fn get_payable_balances(&self, coin: Coin, min_payout: u64) -> (r: Vec<MinerBalance>)
        ensures
            balance_views(r@) == payable_rows(self@.balances, coin, min_payout),
    {
        let mut out: Vec<MinerBalance> = Vec::new();
        let mut i: usize = 0;
        while i < self.balances.len()
            invariant
                0 <= i <= self.balances.len(),
                balance_views(out@) == payable_rows(self@.balances.take(i as int), coin, min_payout),
            decreases self.balances.len() - i,
        {
            let row = &self.balances[i];
            proof {
                assert(self@.balances.take(i + 1).drop_last() =~= self@.balances.take(i as int));
                assert(self@.balances.take(i + 1).last() == row@);
            }
            if row.coin == coin && row.pending_balance >= min_payout {
                out.push(row.copy());
                proof {
                    assert(balance_views(out@) =~= payable_rows(self@.balances.take(i as int), coin, min_payout).push(row@));
                }
            }
            i = i + 1;
        }
        proof {
            assert(self@.balances.take(i as int) =~= self@.balances);
        }
        out
    }

    /// The balance of `(wallet_address, coin)`, if the miner has one.
    pub fn get_miner_balance(&self, coin: Coin, wallet_address: &str) -> (r: Option<MinerBalance>)
        ensures
            match find_balance(self@.balances, coin, wallet_address@) {
                Some(i) => r matches Some(b) && b@ == self@.balances[i],
                None => r is None,
            },
    {
        match self.balance_index(coin, wallet_address) {
            Some(i) => Some(self.balances[i].copy()),
            None => None,
        }
    }

    /// The payments of `coin` still `Pending` or `Processing`, oldest
    /// `created_at` first; payments created at the same time keep ledger
    /// order.
    pub fn get_pending_payments(&self, coin: Coin) -> (r: Vec<Payment>)
        ensures
            payment_views(r@) == created_order(open_payment_rows(self@.payments, coin), false),
            sorted_by_created(payment_views(r@), false),
    {
        let mut out: Vec<Payment> = Vec::new();
        let mut i: usize = 0;
        while i < self.payments.len()
            invariant
                0 <= i <= self.payments.len(),
                payment_views(out@) == open_payment_rows(self@.payments.take(i as int), coin),
            decreases self.payments.len() - i,
        {
            let row = &self.payments[i];
            proof {
                assert(self@.payments.take(i + 1).drop_last() =~= self@.payments.take(i as int));
                assert(self@.payments.take(i + 1).last() == row@);
            }
            let open = match row.status {
                PaymentStatus::Pending | PaymentStatus::Processing => true,
                _ => false,
            };
            if row.coin == coin && open {
                out.push(row.copy());
                proof {
                    assert(payment_views(out@) =~= open_payment_rows(self@.payments.take(i as int), coin).push(row@));
                }
            }
            i = i + 1;
        }
        proof {
            assert(self@.payments.take(i as int) =~= self@.payments);
        }
        sort_by_created(&out, false)
    }

    /// The payments to `wallet_address` in `coin`, newest `created_at`
    /// first (payments created at the same time keep ledger order), at most
    /// `limit` of them; a negative limit means no limit.
    pub fn get_miner_payments(&self, coin: Coin, wallet_address: &str, limit: i32) -> (r: Vec<Payment>)
        ensures
            sorted_by_created(payment_views(r@), true),
            limit < 0 || miner_payment_rows(self@.payments, coin, wallet_address@).len() <= limit
                ==> payment_views(r@) == created_order(miner_payment_rows(self@.payments, coin, wallet_address@), true),
            0 <= limit < miner_payment_rows(self@.payments, coin, wallet_address@).len()
                ==> payment_views(r@) == created_order(
                miner_payment_rows(self@.payments, coin, wallet_address@),
                true,
            ).take(limit as int),
    {
        let key = String::from_str(wallet_address);
        let mut out: Vec<Payment> = Vec::new();
        let mut i: usize = 0;
        while i < self.payments.len()
            invariant
                0 <= i <= self.payments.len(),
                key@ == wallet_address@,
                payment_views(out@) == miner_payment_rows(self@.payments.take(i as int), coin, wallet_address@),
            decreases self.payments.len() - i,
        {
            let row = &self.payments[i];
            proof {
                assert(self@.payments.take(i + 1).drop_last() =~= self@.payments.take(i as int));
                assert(self@.payments.take(i + 1).last() == row@);
            }
            if row.coin == coin && row.wallet_address.eq(&key) {
                out.push(row.copy());
                proof {
                    assert(payment_views(out@) =~= miner_payment_rows(
                        self@.payments.take(i as int),
                        coin,
                        wallet_address@,
                    ).push(row@));
                }
            }
            i = i + 1;
        }
        proof {
            assert(self@.payments.take(i as int) =~= self@.payments);
        }
        let mut sorted = sort_by_created(&out, true);
        proof {
            lemma_created_order_len(payment_views(out@), true);
        }
        if limit >= 0 && (limit as usize) < sorted.len() {
            let ghost full = payment_views(sorted@);
            sorted.truncate(limit as usize);
            proof {
                assert(payment_views(sorted@) =~= full.take(limit as int));
                assert forall|a: int, b: int| 0 <= a < b < payment_views(sorted@).len() implies created_key(
                    payment_views(sorted@)[a].created_at,
                    true,
                ) <= created_key(payment_views(sorted@)[b].created_at, true) by {
                    assert(payment_views(sorted@)[a] == full[a]);
                    assert(payment_views(sorted@)[b] == full[b]);
                }
            }
        }
        sorted
    }

    /// Number of shares of `wallet_address` in `coin` recorded in `[from, to]`.
    pub fn get_share_count_in_range(&self, coin: Coin, wallet_address: &str, from: i64, to: i64) -> (r:
        u64)
        ensures
            r == miner_window_count(self@.shares, coin, wallet_address@, from, to),
    {
        let key = String::from_str(wallet_address);
        let mut count: u64 = 0;
        let mut i: usize = 0;
        while i < self.shares.len()
            invariant
                0 <= i <= self.shares.len(),
                key@ == wallet_address@,
                count <= i,
                count == miner_window_count(self@.shares.take(i as int), coin, wallet_address@, from, to),
            decreases self.shares.len() - i,
        {
            let row = &self.shares[i];
            proof {
                assert(self@.shares.take(i + 1).drop_last() =~= self@.shares.take(i as int));
                assert(self@.shares.take(i + 1).last() == row@);
            }
            if row.coin == coin && from <= row.timestamp && row.timestamp <= to && row.wallet_address.eq(&key) {
                count = count + 1;
            }
            i = i + 1;
        }
        proof {
            assert(self@.shares.take(i as int) =~= self@.shares);
        }
        count
    }

    /// Number of shares of `coin` recorded in `[from, to]`.
    pub fn get_total_shares_in_range(&self, coin: Coin, from: i64, to: i64) -> (r: u64)
        ensures
            r == window_count(self@.shares, coin, from, to),
    {
        let mut count: u64 = 0;
        let mut i: usize = 0;
        while i < self.shares.len()
            invariant
                0 <= i <= self.shares.len(),
                count <= i,
                count == window_count(self@.shares.take(i as int), coin, from, to),
            decreases self.shares.len() - i,
        {
            let row = &self.shares[i];
            proof {
                assert(self@.shares.take(i + 1).drop_last() =~= self@.shares.take(i as int));
                assert(self@.shares.take(i + 1).last() == row@);
            }
            if row.coin == coin && from <= row.timestamp && row.timestamp <= to {
                count = count + 1;
            }
            i = i + 1;
        }
        proof {
            assert(self@.shares.take(i as int) =~= self@.shares);
        }
        count
    }

    /// The distinct addresses with shares of `coin` in `[from, to]`.
    pub fn get_miners_in_range(&self, coin: Coin, from: i64, to: i64) -> (r: Vec<String>)
        ensures
            string_views(r@) == window_miners(self@.shares, coin, from, to),
    {
        let mut out: Vec<String> = Vec::new();
        let mut i: usize = 0;
        while i < self.shares.len()
            invariant
                0 <= i <= self.shares.len(),
                string_views(out@) == window_miners(self@.shares.take(i as int), coin, from, to),
            decreases self.shares.len() - i,
        {
            let row = &self.shares[i];
            proof {
                assert(self@.shares.take(i + 1).drop_last() =~= self@.shares.take(i as int));
                assert(self@.shares.take(i + 1).last() == row@);
            }
            if row.coin == coin && from <= row.timestamp && row.timestamp <= to {
                if !contains_text(&out, &row.wallet_address) {
                    let ghost before = string_views(out@);
                    out.push(row.wallet_address.clone());
                    proof {
                        assert(string_views(out@) =~= before.push(row@.address));
                    }
                }
            }
            i = i + 1;
        }
        proof {
            assert(self@.shares.take(i as int) =~= self@.shares);
        }
        out
    }

    /// The blocks of `coin` whose reward is not yet distributed, lowest
    /// height first (rows of equal height keep their ledger order).
    pub fn get_undistributed_blocks(&self, coin: Coin) -> (r: Vec<BlockFound>)
        requires
            self@.wf(),
        ensures
            block_views(r@) == height_order(undistributed_rows(self@.blocks, coin)),
            block_views(r@).to_multiset() == undistributed_rows(self@.blocks, coin).to_multiset(),
            by_height(block_views(r@)),
            distinct_ids(block_views(r@)),
            forall|a: int|
                0 <= a < r@.len() ==> is_waiting_block(self@.blocks, coin, #[trigger] block_views(r@)[a]),
    {
        let mut out: Vec<BlockFound> = Vec::new();
        let mut i: usize = 0;
        while i < self.blocks.len()
            invariant
                0 <= i <= self.blocks.len(),
                self@.wf(),
                block_views(out@) == undistributed_rows(self@.blocks.take(i as int), coin),
                forall|a: int|
                    0 <= a < out@.len() ==> is_waiting_block(self@.blocks, coin, #[trigger] block_views(out@)[a])
                        && block_views(out@)[a].id <= i,
                forall|a: int, b: int|
                    0 <= a < b < out@.len() ==> block_views(out@)[a].id < block_views(out@)[b].id,
            decreases self.blocks.len() - i,
        {
            let row = &self.blocks[i];
            proof {
                assert(self@.blocks.take(i + 1).drop_last() =~= self@.blocks.take(i as int));
                assert(self@.blocks.take(i + 1).last() == row@);
            }
            if row.coin == coin && !row.distributed {
                out.push(row.copy());
                proof {
                    assert(block_views(out@) =~= undistributed_rows(self@.blocks.take(i as int), coin).push(row@));
                }
            }
            i = i + 1;
        }
        proof {
            assert(self@.blocks.take(i as int) =~= self@.blocks);
            assert(distinct_ids(block_views(out@)));
        }
        let r = sort_by_height(&out);
        proof {
            assert forall|a: int| 0 <= a < r@.len() implies is_waiting_block(
                self@.blocks,
                coin,
                #[trigger] block_views(r@)[a],
            ) by {
                let m = choose|m: int| 0 <= m < out@.len() && #[trigger] block_views(r@)[a] == block_views(out@)[m];
                assert(is_waiting_block(self@.blocks, coin, block_views(out@)[m]));
            }
        }
        r
    }

    /// `record_share_at` with the current time.
    pub fn record_share(
        &mut self,
        coin: Coin,
        wallet_address: &str,
        worker_name: &str,
        difficulty: u64,
        block_height: Option<i64>,
        is_block: bool,
    ) -> (r: Result<u64, LedgerError>)
        requires
            old(self)@.wf(),
        ensures
            final(self)@.wf(),
            old(self)@.evolves_to(final(self)@),
            old(self)@.shares.len() < u64::MAX && old(self)@.balances_after_share(
                coin,
                wallet_address@,
                0,
            ) is Some ==> r is Ok,
            r matches Ok(id) ==> id == old(self)@.shares.len() + 1 && exists|now: i64|
                final(self)@ == #[trigger] old(self)@.after_record_share(
                    coin,
                    wallet_address@,
                    worker_name@,
                    difficulty,
                    block_height,
                    is_block,
                    now,
                ),
            r is Err ==> final(self)@ == old(self)@,
    {
        let now = now_unix();
        self.record_share_at(coin, wallet_address, worker_name, difficulty, block_height, is_block, now)
    }

    /// `record_block_at` with the current time.
    pub fn record_block(
        &mut self,
        coin: Coin,
        block_height: i64,
        block_hash: &str,
        reward: u64,
        finder_wallet: &str,
        finder_worker: &str,
    ) -> (r: Result<u64, LedgerError>)
        requires
            old(self)@.wf(),
        ensures
            final(self)@.wf(),
            old(self)@.evolves_to(final(self)@),
            r is Ok <==> find_block(old(self)@.blocks, block_hash@) is Some || old(self)@.blocks.len()
                < u64::MAX,
            r is Ok ==> exists|now: i64|
                final(self)@ == #[trigger] old(self)@.after_record_block(
                    coin,
                    block_height,
                    block_hash@,
                    reward,
                    finder_wallet@,
                    finder_worker@,
                    now,
                ),
            r matches Ok(id) ==> 1 <= id <= final(self)@.blocks.len() && final(self)@.blocks[id
                - 1].hash == block_hash@,
            r is Err ==> final(self)@ == old(self)@,
    {
        let now = now_unix();
        self.record_block_at(coin, block_height, block_hash, reward, finder_wallet, finder_worker, now)
    }

    /// `create_payment_with_id` with the current time. Moves no money.
    pub fn create_payment(&mut self, id: &str, coin: Coin, wallet_address: &str, amount: u64) -> (r: Result<
        String,
        LedgerError,
    >)
        requires
            old(self)@.wf(),
        ensures
            final(self)@.wf(),
            old(self)@.evolves_to(final(self)@),
            r is Ok <==> find_payment(old(self)@.payments, id@) is None,
            r matches Ok(s) ==> s@ == id@ && exists|now: i64|
                final(self)@ == #[trigger] old(self)@.after_create_payment(
                    id@,
                    coin,
                    wallet_address@,
                    amount,
                    now,
                ),
            r matches Err(e) ==> e == LedgerError::DuplicatePaymentId && final(self)@ == old(self)@,
    {
        let now = now_unix();
        self.create_payment_with_id(id, coin, wallet_address, amount, now)
    }

    /// `update_payment_status_at` with the current time.
    pub fn update_payment_status(
        &mut self,
        payment_id: &str,
        status: PaymentStatus,
        tx_hash: Option<&str>,
        error_message: Option<&str>,
    ) -> (r: Result<(), LedgerError>)
        requires
            old(self)@.wf(),
        ensures
            final(self)@.wf(),
            old(self)@.evolves_to(final(self)@),
            exists|now: i64|
                match #[trigger] old(self)@.after_status_update(
                    payment_id@,
                    status,
                    str_opt_view(tx_hash),
                    str_opt_view(error_message),
                    now,
                ) {
                    Ok(v) => r is Ok && final(self)@ == v,
                    Err(e) => r == Err::<(), LedgerError>(e) && final(self)@ == old(self)@,
                },
    {
        let now = now_unix();
        self.update_payment_status_at(payment_id, status, tx_hash, error_message, now)
    }

    /// Every share row, in ledger order.
    pub fn all_shares(&self) -> (r: Vec<Share>)
        ensures
            share_views(r@) == self@.shares,
    {
        let mut out: Vec<Share> = Vec::new();
        let mut i: usize = 0;
        while i < self.shares.len()
            invariant
                0 <= i <= self.shares.len(),
                share_views(out@) == self@.shares.take(i as int),
            decreases self.shares.len() - i,
        {
            let ghost old_out = out@;
            out.push(self.shares[i].copy());
            proof {
                assert(self@.shares[i as int] == self.shares@[i as int]@);
                assert(self@.shares.take(i + 1) =~= self@.shares.take(i as int).push(self@.shares[i as int]));
                assert(share_views(out@) =~= share_views(old_out).push(self@.shares[i as int]));
                assert(share_views(out@) =~= self@.shares.take(i + 1));
            }
            i = i + 1;
        }
        proof {
            assert(self@.shares.take(i as int) =~= self@.shares);
        }
        out
    }

    /// Every balance row, in ledger order.
    pub fn all_balances(&self) -> (r: Vec<MinerBalance>)
        ensures
            balance_views(r@) == self@.balances,
    {
        let mut out: Vec<MinerBalance> = Vec::new();
        let mut i: usize = 0;
        while i < self.balances.len()
            invariant
                0 <= i <= self.balances.len(),
                balance_views(out@) == self@.balances.take(i as int),
            decreases self.balances.len() - i,
        {
            let ghost old_out = out@;
            out.push(self.balances[i].copy());
            proof {
                assert(self@.balances[i as int] == self.balances@[i as int]@);
                assert(self@.balances.take(i + 1) =~= self@.balances.take(i as int).push(self@.balances[i as int]));
                assert(balance_views(out@) =~= balance_views(old_out).push(self@.balances[i as int]));
                assert(balance_views(out@) =~= self@.balances.take(i + 1));
            }
            i = i + 1;
        }
        proof {
            assert(self@.balances.take(i as int) =~= self@.balances);
        }
        out
    }

    /// Every payment row, in ledger order.
    pub fn all_payments(&self) -> (r: Vec<Payment>)
        ensures
            payment_views(r@) == self@.payments,
    {
        let mut out: Vec<Payment> = Vec::new();
        let mut i: usize = 0;
        while i < self.payments.len()
            invariant
                0 <= i <= self.payments.len(),
                payment_views(out@) == self@.payments.take(i as int),
            decreases self.payments.len() - i,
        {
            let ghost old_out = out@;
            out.push(self.payments[i].copy());
            proof {
                assert(self@.payments[i as int] == self.payments@[i as int]@);
                assert(self@.payments.take(i + 1) =~= self@.payments.take(i as int).push(self@.payments[i as int]));
                assert(payment_views(out@) =~= payment_views(old_out).push(self@.payments[i as int]));
                assert(payment_views(out@) =~= self@.payments.take(i + 1));
            }
            i = i + 1;
        }
        proof {
            assert(self@.payments.take(i as int) =~= self@.payments);
        }
        out
    }

    /// Every block row, in ledger order.
    pub fn all_blocks(&self) -> (r: Vec<BlockFound>)
        ensures
            block_views(r@) == self@.blocks,
    {
        let mut out: Vec<BlockFound> = Vec::new();
        let mut i: usize = 0;
        while i < self.blocks.len()
            invariant
                0 <= i <= self.blocks.len(),
                block_views(out@) == self@.blocks.take(i as int),
            decreases self.blocks.len() - i,
        {
            let ghost old_out = out@;
            out.push(self.blocks[i].copy());
            proof {
                assert(self@.blocks[i as int] == self.blocks@[i as int]@);
                assert(self@.blocks.take(i + 1) =~= self@.blocks.take(i as int).push(self@.blocks[i as int]));
                assert(block_views(out@) =~= block_views(old_out).push(self@.blocks[i as int]));
                assert(block_views(out@) =~= self@.blocks.take(i + 1));
            }
            i = i + 1;
        }
        proof {
            assert(self@.blocks.take(i as int) =~= self@.blocks);
        }
        out
    }

    /// Appends a saved share row; its id must be the next one.
    pub fn restore_share(&mut self, row: Share) -> (r: Result<(), LedgerError>)
        requires
            old(self)@.wf(),
        ensures
            final(self)@.wf(),
            r is Ok <==> row.id == old(self)@.shares.len() + 1,
            r is Ok ==> final(self)@ == (LedgerView { shares: old(self)@.shares.push(row@), ..old(self)@ }),
            r is Err ==> r == Err::<(), LedgerError>(LedgerError::Inconsistent) && final(self)@ == old(self)@,
    {
        let ghost v0 = self@;
        if self.shares.len() as u64 == u64::MAX || row.id != self.shares.len() as u64 + 1 {
            return Err(LedgerError::Inconsistent);
        }
        self.shares.push(row);
        proof {
            assert(self@.shares =~= v0.shares.push(self.shares@.last()@));
            assert(self@.balances =~= v0.balances);
            assert(self@.payments =~= v0.payments);
            assert(self@.blocks =~= v0.blocks);
        }
        Ok(())
    }

    /// Appends a saved balance row; its `(address, coin)` must be new.
    pub fn restore_balance(&mut self, row: MinerBalance) -> (r: Result<(), LedgerError>)
        requires
            old(self)@.wf(),
        ensures
            final(self)@.wf(),
            r is Ok <==> find_balance(old(self)@.balances, row.coin, row.wallet_address@) is None,
            r is Ok ==> final(self)@ == old(self)@.with_balances(old(self)@.balances.push(row@)),
            r is Err ==> r == Err::<(), LedgerError>(LedgerError::Inconsistent) && final(self)@ == old(self)@,
    {
        let ghost v0 = self@;
        let ghost rv = row@;
        if self.balance_index(row.coin, row.wallet_address.as_str()).is_some() {
            return Err(LedgerError::Inconsistent);
        }
        self.balances.push(row);
        proof {
            lemma_find_balance_none(v0.balances, rv.coin, rv.address, 0);
            assert(self@.balances =~= v0.balances.push(rv));
            assert(self@.shares =~= v0.shares);
            assert(self@.payments =~= v0.payments);
            assert(self@.blocks =~= v0.blocks);
        }
        Ok(())
    }

    /// Appends a saved payment row; its id must be new.
    pub fn restore_payment(&mut self, row: Payment) -> (r: Result<(), LedgerError>)
        requires
            old(self)@.wf(),
        ensures
            final(self)@.wf(),
            r is Ok <==> find_payment(old(self)@.payments, row.id@) is None,
            r is Ok ==> final(self)@ == (LedgerView { payments: old(self)@.payments.push(row@), ..old(self)@ }),
            r is Err ==> r == Err::<(), LedgerError>(LedgerError::Inconsistent) && final(self)@ == old(self)@,
    {
        let ghost v0 = self@;
        let ghost rv = row@;
        if self.payment_index(row.id.as_str()).is_some() {
            return Err(LedgerError::Inconsistent);
        }
        self.payments.push(row);
        proof {
            lemma_find_payment_none(v0.payments, rv.id, 0);
            assert(self@.payments =~= v0.payments.push(rv));
            assert(self@.shares =~= v0.shares);
            assert(self@.balances =~= v0.balances);
            assert(self@.blocks =~= v0.blocks);
        }
        Ok(())
    }

    /// Appends a saved block row; its id must be the next one and its hash
    /// new.
    pub fn restore_block(&mut self, row: BlockFound) -> (r: Result<(), LedgerError>)
        requires
            old(self)@.wf(),
        ensures
            final(self)@.wf(),
            r is Ok <==> row.id == old(self)@.blocks.len() + 1 && find_block(
                old(self)@.blocks,
                row.block_hash@,
            ) is None,
            r is Ok ==> final(self)@ == (LedgerView { blocks: old(self)@.blocks.push(row@), ..old(self)@ }),
            r is Err ==> r == Err::<(), LedgerError>(LedgerError::Inconsistent) && final(self)@ == old(self)@,
    {
        let ghost v0 = self@;
        let ghost rv = row@;
        if self.blocks.len() as u64 == u64::MAX || row.id != self.blocks.len() as u64 + 1 {
            return Err(LedgerError::Inconsistent);
        }
        if self.block_index(row.block_hash.as_str()).is_some() {
            return Err(LedgerError::Inconsistent);
        }
        self.blocks.push(row);
        proof {
            lemma_find_block_none(v0.blocks, rv.hash, 0);
            assert(self@.blocks =~= v0.blocks.push(rv));
            assert(self@.shares =~= v0.shares);
            assert(self@.balances =~= v0.balances);
            assert(self@.payments =~= v0.payments);
        }
        Ok(())
    }

    /// Whether block `id` is in the ledger and already marked distributed.
    pub fn is_block_distributed(&self, id: u64) -> (r: bool)
        ensures
            r == (1 <= id <= self@.blocks.len() && self@.blocks[id - 1].distributed),
    {
        if id >= 1 && id <= self.blocks.len() as u64 {
            proof {
                assert(self@.blocks[id - 1] == self.blocks@[id - 1]@);
            }
            self.blocks[(id - 1) as usize].distributed
        } else {
            false
        }
    }
}

} // verus!
