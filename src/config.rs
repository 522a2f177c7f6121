//! Settings of the payment service and their defaults.
use vstd::prelude::*;

verus! {

/// Timers and logging of the service.
#[derive(Debug)]
pub struct ServiceConfig {
    /// Seconds between processing cycles.
    pub share_scan_interval_secs: u64,
    /// Seconds between payout cycles.
    pub payment_interval_secs: u64,
    pub log_level: String,
}

/// Where the ledger is kept.
#[derive(Debug)]
pub struct DatabaseConfig {
    pub path: String,
}

/// The read API for operators.
#[derive(Debug)]
pub struct ApiConfig {
    pub listen: String,
    pub port: u16,
    /// Bearer token; empty disables authentication.
    pub token: String,
}

/// Which pool source protocol a coin uses.
#[derive(Debug, Clone, Copy, PartialEq, Eq, Structural)]
pub enum PoolType {
    MoneroPool,
    MergeProxy,
    MinotariMiner,
}

impl PoolType {
    pub fn default() -> (r: PoolType)
        ensures
            r == PoolType::MoneroPool,
    {
        PoolType::MoneroPool
    }
}

/// Settings of a coin with a Monero-style wallet (XMR, XTM).
#[derive(Debug)]
pub struct CoinConfig {
    pub enabled: bool,
    pub pool_wallet_address: String,
    pub wallet_rpc_url: String,
    pub wallet_rpc_user: Option<String>,
    pub wallet_rpc_password: Option<String>,
    /// Smallest pending balance that is paid out, in atomic units.
    pub min_payout: u64,
    pub pool_data_path: String,
    pub pool_api_url: Option<String>,
    pub pool_type: PoolType,
    /// Ring size of XMR transactions.
    pub mixin: u32,
}

/// Settings of the ALEO coin.
#[derive(Debug)]
pub struct AleoConfig {
    pub enabled: bool,
    pub pool_private_key: String,
    pub pool_wallet_address: String,
    pub node_rpc_url: String,
    /// Smallest pending balance that is paid out, in microcredits.
    pub min_payout: u64,
    pub pool_data_path: String,
    pub pool_api_url: Option<String>,
}

/// All settings of the service.
#[derive(Debug)]
pub struct Config {
    pub service: ServiceConfig,
    pub database: DatabaseConfig,
    pub api: ApiConfig,
    pub xmr: Option<CoinConfig>,
    pub xtm: Option<CoinConfig>,
    pub aleo: Option<AleoConfig>,
}

pub fn default_share_scan_interval() -> (r: u64)
    ensures
        r == 60,
{
    60
}

pub fn default_payment_interval() -> (r: u64)
    ensures
        r == 3600,
{
    3600
}

pub fn default_log_level() -> (r: String)
    ensures
        r@ == "info"@,
{
    String::from_str("info")
}

pub fn default_db_path() -> (r: String)
    ensures
        r@ == "/opt/solopool/payments/data/payments.db"@,
{
    String::from_str("/opt/solopool/payments/data/payments.db")
}

pub fn default_min_payout() -> (r: u64)
    ensures
        r == 1,
{
    1
}

pub fn default_api_listen() -> (r: String)
    ensures
        r@ == "127.0.0.1"@,
{
    String::from_str("127.0.0.1")
}

pub fn default_api_port() -> (r: u16)
    ensures
        r == 8090,
{
    8090
}

pub fn default_enabled() -> (r: bool)
    ensures
        r,
{
    true
}

pub fn default_mixin() -> (r: u32)
    ensures
        r == 16,
{
    16
}

/// Number of payments a history query returns when it names no limit.
pub fn default_limit() -> (r: i32)
    ensures
        r == 50,
{
    50
}

impl Config {
    /// Every default, with no coin configured.
    pub fn default() -> (r: Config)
        ensures
            r.service.share_scan_interval_secs == 60,
            r.service.payment_interval_secs == 3600,
            r.service.log_level@ == "info"@,
            r.database.path@ == "/opt/solopool/payments/data/payments.db"@,
            r.api.listen@ == "127.0.0.1"@,
            r.api.port == 8090,
            r.api.token@.len() == 0,
            r.xmr is None,
            r.xtm is None,
            r.aleo is None,
    {
        Config {
            service: ServiceConfig {
                share_scan_interval_secs: default_share_scan_interval(),
                payment_interval_secs: default_payment_interval(),
                log_level: default_log_level(),
            },
            database: DatabaseConfig { path: default_db_path() },
            api: ApiConfig { listen: default_api_listen(), port: default_api_port(), token: String::new() },
            xmr: None,
            xtm: None,
            aleo: None,
        }
    }
}

} // verus!
