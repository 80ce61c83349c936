use oracle_bot::config::{default_true, AppConfig, AssetConfig, ConfigError, PolymarketConfig, RiskConfig, TradingConfig};

#[test]
fn default_configuration() {
    let cfg = AppConfig::default();
    assert_eq!(cfg.trading.mode, "paper");
    assert_eq!(cfg.trading.timeframe, "15m");
    assert_eq!(f64::from_bits(cfg.trading.market_poll_interval_seconds.bits), 4.0);
    assert_eq!(f64::from_bits(cfg.trading.signal_interval_seconds.bits), 0.25);
    assert_eq!(cfg.trading.lookback_windows, 1);
    assert_eq!(cfg.trading.lookahead_windows, 2);
    assert_eq!(cfg.trading.opening_capture_grace_seconds, 20);
    assert!(!cfg.trading.live_enable_orders);
    let symbols: Vec<&str> = cfg.assets.iter().map(|a| a.symbol.as_str()).collect();
    assert_eq!(symbols, vec!["BTC", "ETH", "SOL", "XRP"]);
    assert_eq!(cfg.assets[3].chainlink_symbol, "xrp/usd");
    assert!(cfg.validate().is_ok());
    assert!(default_true());
}

#[test]
fn default_risk_and_endpoints() {
    let r = RiskConfig::default();
    let f = |b: oracle_bot::binary64::Binary64| f64::from_bits(b.bits);
    assert_eq!(f(r.min_signal_distance_bps), 4.0);
    assert_eq!(f(r.probability_scale_bps), 12.0);
    assert_eq!(f(r.probability_cap), 0.88);
    assert_eq!(f(r.min_probability_edge), 0.04);
    assert_eq!(f(r.min_entry_price), 0.05);
    assert_eq!(f(r.max_entry_price), 0.92);
    assert_eq!(f(r.min_elapsed_seconds), 1.0);
    assert_eq!(f(r.max_seconds_to_expiry), 8.0);
    let p = PolymarketConfig::default();
    assert_eq!(p.gamma_base_url, "https://gamma-api.polymarket.com");
    assert_eq!(p.market_ws_url, "wss://ws-subscriptions-clob.polymarket.com/ws/market");
    assert_eq!(p.rtds_ws_url, "wss://ws-live-data.polymarket.com");
    assert_eq!(p.market_ws_ping_payload, "PING");
    assert_eq!(TradingConfig::default().mode, "paper");
}

#[test]
fn validation_errors() {
    let mut cfg = AppConfig::default();
    cfg.trading.mode = "live".into();
    assert_eq!(cfg.validate(), Err(ConfigError::UnsupportedMode));
    assert_eq!(
        ConfigError::UnsupportedMode.message(),
        "Rust skeleton only supports paper mode for now"
    );
    let mut cfg = AppConfig::default();
    for a in cfg.assets.iter_mut() {
        a.enabled = false;
    }
    assert!(cfg.enabled_assets().is_empty());
    assert_eq!(cfg.validate(), Err(ConfigError::NoEnabledAssets));
    assert_eq!(
        ConfigError::NoEnabledAssets.message(),
        "at least one asset must be enabled"
    );
    cfg.assets[2].enabled = true;
    let enabled = cfg.enabled_assets();
    assert_eq!(enabled.len(), 1);
    assert_eq!(enabled[0].symbol, "SOL");
    assert!(cfg.validate().is_ok());
    let a = AssetConfig::new("X", "x", "x/usd");
    assert!(a.enabled);
}
