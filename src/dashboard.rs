//! Settings of the statistics dashboard, their defaults, and the small text
//! helpers it uses for display and for reading its credentials file.
use vstd::prelude::*;

verus! {

/// Login settings.
#[derive(Debug)]
pub struct AuthConfig {
    pub enabled: bool,
    pub credentials_file: String,
    pub session_timeout_secs: u64,
    pub cookie_name: String,
}

/// Web server settings.
#[derive(Debug)]
pub struct ServerConfig {
    pub host: String,
    pub port: u16,
    pub refresh_interval_secs: u64,
    pub db_dir: String,
    pub https: HttpsConfig,
    pub logging: LogConfig,
    pub payments_api_url: String,
    pub payments_api_token: String,
}

/// Log files.
#[derive(Debug)]
pub struct LogConfig {
    pub log_dir: String,
    pub access_log_enabled: bool,
    pub error_log_enabled: bool,
}

/// TLS listener.
#[derive(Debug)]
pub struct HttpsConfig {
    pub enabled: bool,
    pub port: u16,
    pub cert_path: String,
    pub key_path: String,
}

/// The pools shown on the dashboard.
#[derive(Debug)]
pub struct PoolsConfig {
    pub btc: Option<CkPoolConfig>,
    pub bch: Option<CkPoolConfig>,
    pub dgb: Option<CkPoolConfig>,
    pub xmr: Option<MoneroPoolConfig>,
    pub xtm: Option<TariPoolConfig>,
    pub xmr_xtm_merge: Option<MergePoolConfig>,
    pub aleo: Option<AleoPoolConfig>,
}

#[derive(Debug)]
pub struct CkPoolConfig {
    pub enabled: bool,
    pub name: String,
    pub algorithm: String,
    pub socket_dir: Option<String>,
    pub stratum_port: u16,
    pub username_format: String,
    pub password: String,
    pub node_rpc_url: Option<String>,
    pub node_rpc_user: String,
    pub node_rpc_password: Option<String>,
}

#[derive(Debug)]
pub struct MoneroPoolConfig {
    pub enabled: bool,
    pub name: String,
    pub algorithm: String,
    pub api_url: String,
    pub stratum_port: u16,
    pub pool_wallet_address: Option<String>,
    pub username_format: String,
    pub password: String,
    pub node_rpc_url: String,
    pub node_rpc_user: Option<String>,
    pub node_rpc_password: Option<String>,
}

#[derive(Debug)]
pub struct TariPoolConfig {
    pub enabled: bool,
    pub name: String,
    pub algorithm: String,
    pub api_url: String,
    pub stratum_port: u16,
    pub pool_wallet_address: Option<String>,
    pub username_format: String,
    pub password: String,
    pub node_grpc_port: u16,
}

#[derive(Debug)]
pub struct MergePoolConfig {
    pub enabled: bool,
    pub name: String,
    pub algorithm: String,
    pub api_url: Option<String>,
    pub stratum_port: u16,
    pub xmr_pool_wallet_address: Option<String>,
    pub xtm_pool_wallet_address: Option<String>,
    pub username_format: String,
    pub password: String,
    pub xmr_node_rpc_url: String,
    pub xmr_node_rpc_user: Option<String>,
    pub xmr_node_rpc_password: Option<String>,
    pub xtm_node_grpc_port: u16,
}

#[derive(Debug)]
pub struct AleoPoolConfig {
    pub enabled: bool,
    pub name: String,
    pub algorithm: String,
    pub api_url: String,
    pub stratum_port: u16,
    pub pool_wallet_address: Option<String>,
    pub username_format: String,
    pub password: String,
    pub node_rest_url: String,
    pub node_rpc_user: Option<String>,
    pub node_rpc_password: Option<String>,
    pub network: String,
}

/// All dashboard settings.
#[derive(Debug)]
pub struct Config {
    pub server: ServerConfig,
    pub pools: PoolsConfig,
    pub auth: AuthConfig,
}

/// A dashboard login.
#[derive(Debug)]
pub struct Credentials {
    pub username: String,
    pub password_hash: String,
}

pub fn default_credentials_path() -> (r: String)
    ensures
        r@ == "/opt/solo-pool/.credentials"@,
{
    String::from_str("/opt/solo-pool/.credentials")
}

pub fn default_session_timeout() -> (r: u64)
    ensures
        r == 86400,
{
    86400
}

pub fn default_cookie_name() -> (r: String)
    ensures
        r@ == "solo_pool_session"@,
{
    String::from_str("solo_pool_session")
}

pub fn default_payments_api_url() -> (r: String)
    ensures
        r@ == "http://127.0.0.1:8081"@,
{
    String::from_str("http://127.0.0.1:8081")
}

pub fn default_host() -> (r: String)
    ensures
        r@ == "0.0.0.0"@,
{
    String::from_str("0.0.0.0")
}

pub fn default_port() -> (r: u16)
    ensures
        r == 8080,
{
    8080
}

pub fn default_refresh() -> (r: u64)
    ensures
        r == 10,
{
    10
}

pub fn default_https_enabled() -> (r: bool)
    ensures
        r,
{
    true
}

pub fn default_https_port() -> (r: u16)
    ensures
        r == 8443,
{
    8443
}

pub fn default_cert_path() -> (r: String)
    ensures
        r@ == "/opt/solo-pool/webui/certs/server.crt"@,
{
    String::from_str("/opt/solo-pool/webui/certs/server.crt")
}

pub fn default_key_path() -> (r: String)
    ensures
        r@ == "/opt/solo-pool/webui/certs/server.key"@,
{
    String::from_str("/opt/solo-pool/webui/certs/server.key")
}

pub fn default_log_dir() -> (r: String)
    ensures
        r@ == "/opt/solo-pool/webui/logs"@,
{
    String::from_str("/opt/solo-pool/webui/logs")
}

pub fn default_db_dir() -> (r: String)
    ensures
        r@ == "/opt/solo-pool/webui/data"@,
{
    String::from_str("/opt/solo-pool/webui/data")
}

pub fn default_true() -> (r: bool)
    ensures
        r,
{
    true
}

/// CKPool runs in solo mode: miners log in with their own address.
pub fn default_ckpool_username() -> (r: String)
    ensures
        r@ == "YOUR_WALLET_ADDRESS.worker_name"@,
{
    String::from_str("YOUR_WALLET_ADDRESS.worker_name")
}

pub fn default_xmr_username() -> (r: String)
    ensures
        r@ == "wallet_address.worker_name"@,
{
    String::from_str("wallet_address.worker_name")
}

pub fn default_xmr_password() -> (r: String)
    ensures
        r@ == "x"@,
{
    String::from_str("x")
}

pub fn default_tari_username() -> (r: String)
    ensures
        r@ == "wallet_address.worker_name"@,
{
    String::from_str("wallet_address.worker_name")
}

pub fn default_aleo_username() -> (r: String)
    ensures
        r@ == "wallet_address.worker_name"@,
{
    String::from_str("wallet_address.worker_name")
}

pub fn default_password() -> (r: String)
    ensures
        r@ == "x"@,
{
    String::from_str("x")
}

pub fn default_rpc_user() -> (r: String)
    ensures
        r@ == "rpc"@,
{
    String::from_str("rpc")
}

pub fn default_monero_rpc() -> (r: String)
    ensures
        r@ == "http://127.0.0.1:18081"@,
{
    String::from_str("http://127.0.0.1:18081")
}

pub fn default_tari_grpc_port() -> (r: u16)
    ensures
        r == 18142,
{
    18142
}

pub fn default_aleo_rest() -> (r: String)
    ensures
        r@ == "http://127.0.0.1:3030"@,
{
    String::from_str("http://127.0.0.1:3030")
}

pub fn default_aleo_network() -> (r: String)
    ensures
        r@ == "mainnet"@,
{
    String::from_str("mainnet")
}

impl AuthConfig {
    pub fn default() -> (r: AuthConfig)
        ensures
            r.enabled,
            r.credentials_file@ == "/opt/solo-pool/.credentials"@,
            r.session_timeout_secs == 86400,
            r.cookie_name@ == "solo_pool_session"@,
    {
        AuthConfig {
            enabled: true,
            credentials_file: default_credentials_path(),
            session_timeout_secs: default_session_timeout(),
            cookie_name: default_cookie_name(),
        }
    }
}

impl LogConfig {
    pub fn default() -> (r: LogConfig)
        ensures
            r.log_dir@ == "/opt/solo-pool/webui/logs"@,
            r.access_log_enabled,
            r.error_log_enabled,
    {
        LogConfig { log_dir: default_log_dir(), access_log_enabled: true, error_log_enabled: true }
    }
}

impl HttpsConfig {
    pub fn default() -> (r: HttpsConfig)
        ensures
            r.enabled,
            r.port == 8443,
            r.cert_path@ == "/opt/solo-pool/webui/certs/server.crt"@,
            r.key_path@ == "/opt/solo-pool/webui/certs/server.key"@,
    {
        HttpsConfig {
            enabled: default_https_enabled(),
            port: default_https_port(),
            cert_path: default_cert_path(),
            key_path: default_key_path(),
        }
    }
}

fn text(s: &str) -> (r: String)
    ensures
        r@ == s@,
{
    String::from_str(s)
}

fn ckpool(name: &str, socket_dir: &str, port: u16, username: &str, node: &str) -> (r: CkPoolConfig)
    ensures
        r.enabled,
        r.name@ == name@,
        r.stratum_port == port,
        r.socket_dir matches Some(d) && d@ == socket_dir@,
        r.username_format@ == username@,
        r.node_rpc_url matches Some(u) && u@ == node@,
        r.node_rpc_user@ == "rpc"@,
        r.node_rpc_password is None,
{
    CkPoolConfig {
        enabled: true,
        name: text(name),
        algorithm: text("SHA256"),
        socket_dir: Some(text(socket_dir)),
        stratum_port: port,
        username_format: text(username),
        password: text("x"),
        node_rpc_url: Some(text(node)),
        node_rpc_user: default_rpc_user(),
        node_rpc_password: None,
    }
}

impl Config {
    /// The settings used when no configuration file exists: every pool
    /// listed, merge mining of XMR and XTM in place of the separate pools.
    pub fn default() -> (r: Config)
        ensures
            r.server.host@ == "0.0.0.0"@,
            r.server.port == 8080,
            r.server.refresh_interval_secs == 10,
            r.server.payments_api_url@ == "http://127.0.0.1:8081"@,
            r.server.payments_api_token@.len() == 0,
            r.auth.enabled,
            r.auth.session_timeout_secs == 86400,
            r.pools.btc matches Some(p) && p.stratum_port == 3333,
            r.pools.bch matches Some(p) && p.stratum_port == 3334,
            r.pools.dgb matches Some(p) && p.stratum_port == 3335,
            r.pools.xmr matches Some(p) && !p.enabled && p.stratum_port == 3336,
            r.pools.xtm matches Some(p) && !p.enabled && p.stratum_port == 3337,
            r.pools.xmr_xtm_merge matches Some(p) && p.enabled && p.stratum_port == 3338,
            r.pools.aleo matches Some(p) && p.enabled && p.stratum_port == 3339,
    {
        Config {
            server: ServerConfig {
                host: default_host(),
                port: default_port(),
                refresh_interval_secs: default_refresh(),
                db_dir: default_db_dir(),
                https: HttpsConfig::default(),
                logging: LogConfig::default(),
                payments_api_url: default_payments_api_url(),
                payments_api_token: String::new(),
            },
            auth: AuthConfig::default(),
            pools: PoolsConfig {
                btc: Some(
                    ckpool(
                        "Bitcoin",
                        "/tmp/ckpool-btc",
                        3333,
                        "YOUR_BTC_ADDRESS.worker_name",
                        "http://127.0.0.1:8332",
                    ),
                ),
                bch: Some(
                    ckpool(
                        "Bitcoin Cash",
                        "/tmp/ckpool-bch",
                        3334,
                        "YOUR_BCH_ADDRESS.worker_name",
                        "http://127.0.0.1:8334",
                    ),
                ),
                dgb: Some(
                    ckpool(
                        "DigiByte",
                        "/tmp/ckpool-dgb",
                        3335,
                        "YOUR_DGB_ADDRESS.worker_name",
                        "http://127.0.0.1:14022",
                    ),
                ),
                xmr: Some(
                    MoneroPoolConfig {
                        enabled: false,
                        name: text("Monero"),
                        algorithm: text("RandomX"),
                        api_url: text("http://127.0.0.1:3336"),
                        stratum_port: 3336,
                        pool_wallet_address: None,
                        username_format: text("YOUR_XMR_ADDRESS.worker_name"),
                        password: text("x"),
                        node_rpc_url: default_monero_rpc(),
                        node_rpc_user: None,
                        node_rpc_password: None,
                    },
                ),
                xtm: Some(
                    TariPoolConfig {
                        enabled: false,
                        name: text("Tari"),
                        algorithm: text("RandomX"),
                        api_url: text("http://127.0.0.1:3337"),
                        stratum_port: 3337,
                        pool_wallet_address: None,
                        username_format: text("YOUR_XTM_ADDRESS.worker_name"),
                        password: text("x"),
                        node_grpc_port: default_tari_grpc_port(),
                    },
                ),
                xmr_xtm_merge: Some(
                    MergePoolConfig {
                        enabled: true,
                        name: text("Monero + Tari"),
                        algorithm: text("RandomX (Merge)"),
                        api_url: Some(text("http://127.0.0.1:3338")),
                        stratum_port: 3338,
                        xmr_pool_wallet_address: None,
                        xtm_pool_wallet_address: None,
                        username_format: text("YOUR_XMR_ADDRESS.worker_name"),
                        password: text("x"),
                        xmr_node_rpc_url: default_monero_rpc(),
                        xmr_node_rpc_user: None,
                        xmr_node_rpc_password: None,
                        xtm_node_grpc_port: default_tari_grpc_port(),
                    },
                ),
                aleo: Some(
                    AleoPoolConfig {
                        enabled: true,
                        name: text("Aleo"),
                        algorithm: text("zkSNARK"),
                        api_url: text("http://127.0.0.1:3339"),
                        stratum_port: 3339,
                        pool_wallet_address: None,
                        username_format: text("YOUR_ALEO_ADDRESS.worker_name"),
                        password: text("x"),
                        node_rest_url: default_aleo_rest(),
                        node_rpc_user: None,
                        node_rpc_password: None,
                        network: default_aleo_network(),
                    },
                ),
            },
        }
    }
}

/// An address cut to its first `head` and last `tail` characters around
/// "...", when it is longer than `limit`.
pub open spec fn shortened(s: Seq<char>, limit: nat, head: nat, tail: nat) -> Seq<char> {
    if s.len() > limit {
        s.subrange(0, head as int) + "..."@ + s.subrange(s.len() - tail, s.len() as int)
    } else {
        s
    }
}

/// Shortens an address for display. Addresses are ASCII; any other text is
/// shown as it is.
fn shorten(address: &str, limit: usize, head: usize, tail: usize) -> (r: String)
    requires
        head <= limit,
        tail <= limit,
    ensures
        address.is_ascii() ==> r@ == shortened(address@, limit as nat, head as nat, tail as nat),
        !address.is_ascii() ==> r@ == address@,
{
    if address.is_ascii() {
        let n = address.unicode_len();
        if n > limit {
            let first = String::from_str(address.substring_char(0, head));
            let last = address.substring_char(n - tail, n);
            let r = first.concat("...").concat(last);
            r
        } else {
            String::from_str(address)
        }
    } else {
        String::from_str(address)
    }
}

/// Statistics client of the ALEO pool.
pub struct AleoPoolClient;

impl AleoPoolClient {
    pub fn shorten_address(address: &str) -> (r: String)
        ensures
            address.is_ascii() ==> r@ == shortened(address@, 16, 8, 6),
            !address.is_ascii() ==> r@ == address@,
    {
        shorten(address, 16, 8, 6)
    }
}

/// Statistics client of monero-pool.
pub struct MoneroPoolClient;

impl MoneroPoolClient {
    pub fn shorten_address(address: &str) -> (r: String)
        ensures
            address.is_ascii() ==> r@ == shortened(address@, 20, 10, 8),
            !address.is_ascii() ==> r@ == address@,
    {
        shorten(address, 20, 10, 8)
    }
}

/// Statistics client of P2Pool.
pub struct P2PoolClient;

impl P2PoolClient {
    pub fn shorten_address(address: &str) -> (r: String)
        ensures
            address.is_ascii() ==> r@ == shortened(address@, 20, 10, 8),
            !address.is_ascii() ==> r@ == address@,
    {
        shorten(address, 20, 10, 8)
    }
}

/// What `str::trim` returns for a string.
pub uninterp spec fn trimmed(s: Seq<char>) -> Seq<char>;

/// Relies on `str::trim`: leading and trailing whitespace removed; the
/// result depends on the characters alone.
#[verifier::external_body]
fn trim(s: &str) -> (r: &str)
    ensures
        r@ == trimmed(s@),
{
    s.trim()
}

/// A value with one pair of matching single or double quotes around it
/// loses them; any other value stays as it is.
pub open spec fn unquoted(s: Seq<char>) -> Seq<char> {
    if s.len() >= 2 && ((s[0] == '"' && s.last() == '"') || (s[0] == '\'' && s.last() == '\'')) {
        s.subrange(1, s.len() - 1)
    } else {
        s
    }
}

/// Removes one pair of surrounding quotes from an already trimmed value.
pub fn unquote(value: &str) -> (r: String)
    ensures
        r@ == unquoted(value@),
{
    let n = value.unicode_len();
    if n >= 2 {
        let first = value.get_char(0);
        let last = value.get_char(n - 1);
        if (first == '"' && last == '"') || (first == '\'' && last == '\'') {
            return String::from_str(value.substring_char(1, n - 1));
        }
    }
    String::from_str(value)
}

/// Reads the value of a line `KEY=value` of the credentials file, where
/// `prefix` is `KEY=`: the rest of the line, trimmed, without surrounding
/// quotes. `None` when the line does not start with the prefix.
pub fn extract_quoted_value(line: &str, prefix: &str) -> (r: Option<String>)
    ensures
        r is None <==> !prefix@.is_prefix_of(line@),
        r matches Some(v) ==> v@ == unquoted(trimmed(line@.subrange(prefix@.len() as int, line@.len() as int))),
{
    let n = line.unicode_len();
    let p = prefix.unicode_len();
    if p > n {
        return None;
    }
    let head = String::from_str(line.substring_char(0, p));
    let want = String::from_str(prefix);
    if !head.eq(&want) {
        proof {
            assert(!prefix@.is_prefix_of(line@));
        }
        return None;
    }
    proof {
        assert(prefix@.is_prefix_of(line@));
    }
    let rest = trim(line.substring_char(p, n));
    Some(unquote(rest))
}

} // verus!
