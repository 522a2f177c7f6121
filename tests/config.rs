use pool_payments::config;
use pool_payments::dashboard::{self, extract_quoted_value, unquote, AleoPoolClient, MoneroPoolClient, P2PoolClient};

#[test]
fn service_defaults() {
    let c = config::Config::default();
    assert_eq!(c.service.share_scan_interval_secs, 60);
    assert_eq!(c.service.payment_interval_secs, 3600);
    assert_eq!(c.service.log_level, "info");
    assert_eq!(c.database.path, "/opt/solopool/payments/data/payments.db");
    assert_eq!(c.api.listen, "127.0.0.1");
    assert_eq!(c.api.port, 8090);
    assert!(c.xmr.is_none());
    assert_eq!(config::default_min_payout(), 1);
    assert_eq!(config::default_mixin(), 16);
    assert_eq!(config::default_limit(), 50);
    assert!(config::default_enabled());
    assert_eq!(config::PoolType::default(), config::PoolType::MoneroPool);
}

#[test]
fn dashboard_defaults() {
    let c = dashboard::Config::default();
    assert_eq!(c.server.host, "0.0.0.0");
    assert_eq!(c.server.port, 8080);
    assert_eq!(c.server.https.port, 8443);
    assert_eq!(c.auth.cookie_name, "solo_pool_session");
    assert_eq!(c.pools.btc.as_ref().unwrap().name, "Bitcoin");
    assert_eq!(c.pools.dgb.as_ref().unwrap().node_rpc_url.as_deref(), Some("http://127.0.0.1:14022"));
    assert!(!c.pools.xmr.as_ref().unwrap().enabled);
    assert_eq!(c.pools.aleo.as_ref().unwrap().network, "mainnet");
    assert_eq!(dashboard::default_tari_grpc_port(), 18142);
    assert_eq!(dashboard::default_session_timeout(), 86400);
}

#[test]
fn addresses_are_shortened_for_display() {
    assert_eq!(AleoPoolClient::shorten_address("aleo1abcdefghijklmnopqrstuvwxyz"), "aleo1abc...uvwxyz");
    assert_eq!(AleoPoolClient::shorten_address("short"), "short");
    assert_eq!(MoneroPoolClient::shorten_address("0123456789abcdefghijklmn"), "0123456789...ghijklmn");
    assert_eq!(P2PoolClient::shorten_address("01234567890123456789"), "01234567890123456789");
}

#[test]
fn credentials_lines_are_read() {
    assert_eq!(extract_quoted_value("USER=\"admin\"", "USER="), Some("admin".to_string()));
    assert_eq!(extract_quoted_value("HASH=  'abc'  ", "HASH="), Some("abc".to_string()));
    assert_eq!(extract_quoted_value("HASH= plain ", "HASH="), Some("plain".to_string()));
    assert_eq!(extract_quoted_value("OTHER=1", "HASH="), None);
    assert_eq!(unquote("\"x'"), "\"x'");
    assert_eq!(unquote("\""), "\"");
}
