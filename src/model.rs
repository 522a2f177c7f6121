//! Coins, payment states and transaction states shared by the ledger and
//! the settlement engine.
use vstd::prelude::*;

verus! {

/// Supported coins for payment processing.
#[derive(Debug, Clone, Copy, PartialEq, Eq, Structural)]
pub enum Coin {
    Xmr,
    Xtm,
    Aleo,
}

/// What `str::to_lowercase` returns for a string.
pub uninterp spec fn lowercase_of(s: Seq<char>) -> Seq<char>;

/// Relies on `str::to_lowercase`: the result depends on the characters alone.
#[verifier::external_body]
fn to_lowercase(s: &str) -> (r: String)
    ensures
        r@ == lowercase_of(s@),
{
    s.to_lowercase()
}

/// A coin code that names no supported coin.
#[derive(Debug, Clone, PartialEq, Eq)]
pub struct UnknownCoin {
    pub code: String,
}

impl Coin {
    /// The short lower-case code of the coin.
    pub open spec fn code(self) -> Seq<char> {
        match self {
            Coin::Xmr => "xmr"@,
            Coin::Xtm => "xtm"@,
            Coin::Aleo => "aleo"@,
        }
    }

    /// The coin whose code is exactly `s`.
    pub open spec fn from_code(s: Seq<char>) -> Option<Coin> {
        if s == "xmr"@ {
            Some(Coin::Xmr)
        } else if s == "xtm"@ {
            Some(Coin::Xtm)
        } else if s == "aleo"@ {
            Some(Coin::Aleo)
        } else {
            None
        }
    }

    pub fn as_str(&self) -> (r: &'static str)
        ensures
            r@ == self.code(),
    {
        match self {
            Coin::Xmr => "xmr",
            Coin::Xtm => "xtm",
            Coin::Aleo => "aleo",
        }
    }

    /// The coin code as an owned string.
    pub fn to_string(&self) -> (r: String)
        ensures
            r@ == self.code(),
    {
        String::from_str(self.as_str())
    }

    /// Reads a code that is already in lower case.
    pub fn from_lowercase_code(s: &str) -> (r: Option<Coin>)
        ensures
            r == Coin::from_code(s@),
    {
        let owned = String::from_str(s);
        if owned == String::from_str("xmr") {
            Some(Coin::Xmr)
        } else if owned == String::from_str("xtm") {
            Some(Coin::Xtm)
        } else if owned == String::from_str("aleo") {
            Some(Coin::Aleo)
        } else {
            None
        }
    }

    /// Reads a coin code in any letter case.
    pub fn parse(s: &str) -> (r: Result<Coin, UnknownCoin>)
        ensures
            r matches Ok(c) ==> Coin::from_code(lowercase_of(s@)) == Some(c),
            r matches Err(e) ==> Coin::from_code(lowercase_of(s@)) is None && e.code@ == s@,
    {
        let lower = to_lowercase(s);
        match Coin::from_lowercase_code(lower.as_str()) {
            Some(c) => Ok(c),
            None => Err(UnknownCoin { code: String::from_str(s) }),
        }
    }
}

impl std::str::FromStr for Coin {
    type Err = UnknownCoin;

    fn from_str(s: &str) -> Result<Coin, UnknownCoin> {
        Coin::parse(s)
    }
}

/// Where a payment stands. A payment starts `Pending`, moves to
/// `Processing` once a transaction id is known, and ends `Confirmed` or
/// `Failed`.
#[derive(Debug, Clone, Copy, PartialEq, Eq, Structural)]
pub enum PaymentStatus {
    Pending,
    Processing,
    Confirmed,
    Failed,
}

impl PaymentStatus {
    /// Position along `Pending -> Processing -> {Confirmed, Failed}`.
    pub open spec fn rank(self) -> int {
        match self {
            PaymentStatus::Pending => 0,
            PaymentStatus::Processing => 1,
            PaymentStatus::Confirmed => 2,
            PaymentStatus::Failed => 2,
        }
    }

    pub open spec fn is_terminal(self) -> bool {
        self.rank() == 2
    }

    /// A status update from `self` to `next` is allowed: the payment is not
    /// yet settled and does not move backwards.
    pub open spec fn may_become(self, next: PaymentStatus) -> bool {
        !self.is_terminal() && self.rank() <= next.rank()
    }

    pub open spec fn code(self) -> Seq<char> {
        match self {
            PaymentStatus::Pending => "pending"@,
            PaymentStatus::Processing => "processing"@,
            PaymentStatus::Confirmed => "confirmed"@,
            PaymentStatus::Failed => "failed"@,
        }
    }

    /// The status stored under a code; an unknown code reads as `Pending`.
    pub open spec fn from_code(s: Seq<char>) -> PaymentStatus {
        if s == "processing"@ {
            PaymentStatus::Processing
        } else if s == "confirmed"@ {
            PaymentStatus::Confirmed
        } else if s == "failed"@ {
            PaymentStatus::Failed
        } else {
            PaymentStatus::Pending
        }
    }

    pub fn is_settled(&self) -> (r: bool)
        ensures
            r == self.is_terminal(),
    {
        match self {
            PaymentStatus::Confirmed | PaymentStatus::Failed => true,
            _ => false,
        }
    }

    /// Whether an update from `self` to `next` is allowed.
    pub fn can_become(&self, next: PaymentStatus) -> (r: bool)
        ensures
            r == self.may_become(next),
    {
        let from: u8 = match self {
            PaymentStatus::Pending => 0,
            PaymentStatus::Processing => 1,
            _ => 2,
        };
        let to: u8 = match next {
            PaymentStatus::Pending => 0,
            PaymentStatus::Processing => 1,
            _ => 2,
        };
        from < 2 && from <= to
    }

    pub fn as_str(&self) -> (r: &'static str)
        ensures
            r@ == self.code(),
    {
        match self {
            PaymentStatus::Pending => "pending",
            PaymentStatus::Processing => "processing",
            PaymentStatus::Confirmed => "confirmed",
            PaymentStatus::Failed => "failed",
        }
    }

    /// Reads a stored status code; anything unknown is `Pending`.
    pub fn from_code_str(s: &str) -> (r: PaymentStatus)
        ensures
            r == PaymentStatus::from_code(s@),
    {
        let owned = String::from_str(s);
        if owned == String::from_str("processing") {
            PaymentStatus::Processing
        } else if owned == String::from_str("confirmed") {
            PaymentStatus::Confirmed
        } else if owned == String::from_str("failed") {
            PaymentStatus::Failed
        } else {
            PaymentStatus::Pending
        }
    }
}

/// State of a wallet transaction as its wallet reports it.
#[derive(Debug, Clone, PartialEq, Eq)]
pub enum TxStatus {
    /// In the mempool.
    Pending,
    /// Has confirmations, but fewer than the wallet requires.
    Confirming { confirmations: u64 },
    /// Fully confirmed.
    Confirmed,
    /// Failed or rejected, with the reason.
    Failed(String),
    /// Unknown to the wallet.
    NotFound,
}

/// The status of a transaction that is known to the chain with
/// `confirmations` confirmations, against a wallet that asks for `required`.
pub open spec fn status_for_confirmations(confirmations: u64, required: u64) -> TxStatus {
    if confirmations >= required {
        TxStatus::Confirmed
    } else if confirmations > 0 {
        TxStatus::Confirming { confirmations }
    } else {
        TxStatus::Pending
    }
}

/// Classifies a transaction by its confirmation count.
pub fn classify_confirmations(confirmations: u64, required: u64) -> (r: TxStatus)
    ensures
        r == status_for_confirmations(confirmations, required),
{
    if confirmations >= required {
        TxStatus::Confirmed
    } else if confirmations > 0 {
        TxStatus::Confirming { confirmations }
    } else {
        TxStatus::Pending
    }
}

/// Failure of a pool statistics source.
#[derive(Debug, Clone, PartialEq, Eq)]
pub enum PoolError {
    ConnectionFailed(String),
    ApiError(String),
    ParseError(String),
    PoolOffline,
}

/// Failure of a payout wallet.
#[derive(Debug, Clone, PartialEq, Eq)]
pub enum WalletError {
    ConnectionFailed(String),
    RpcError(String),
    InsufficientBalance { have: u64, need: u64 },
    InvalidAddress(String),
    TransactionFailed(String),
    TransactionNotFound(String),
    WalletLocked,
    ConfigError(String),
}

} // verus!
