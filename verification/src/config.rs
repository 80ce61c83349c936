//! The bot's configuration: assets, trading and risk settings, endpoints.
//!
//! Real-valued settings are held as binary64 encodings.
use vstd::prelude::*;

use crate::binary64::Binary64;
use crate::text::{push_str, str_eq};

verus! {

/// One asset the bot follows.
#[derive(Debug)]
pub struct AssetConfig {
    pub symbol: String,
    pub slug_prefix: String,
    pub chainlink_symbol: String,
    pub enabled: bool,
}

impl Clone for AssetConfig {
    fn clone(&self) -> (res: Self)
        ensures
            res == *self,
    {
        AssetConfig {
            symbol: self.symbol.clone(),
            slug_prefix: self.slug_prefix.clone(),
            chainlink_symbol: self.chainlink_symbol.clone(),
            enabled: self.enabled,
        }
    }
}

/// The value an absent `enabled` setting takes.
pub fn default_true() -> (res: bool)
    ensures
        res,
{
    true
}

impl AssetConfig {
    /// An enabled asset with the given symbol, slug prefix and oracle symbol.
    pub fn new(symbol: &str, slug_prefix: &str, chainlink_symbol: &str) -> (res: Self)
        ensures
            res.symbol@ == symbol@,
            res.slug_prefix@ == slug_prefix@,
            res.chainlink_symbol@ == chainlink_symbol@,
            res.enabled,
    {
        AssetConfig {
            symbol: symbol.to_owned(),
            slug_prefix: slug_prefix.to_owned(),
            chainlink_symbol: chainlink_symbol.to_owned(),
            enabled: true,
        }
    }
}

/// Trading settings.
#[derive(Debug)]
pub struct TradingConfig {
    pub mode: String,
    pub timeframe: String,
    pub market_poll_interval_seconds: Binary64,
    pub signal_interval_seconds: Binary64,
    pub lookback_windows: i32,
    pub lookahead_windows: i32,
    pub opening_capture_grace_seconds: i64,
    pub live_enable_orders: bool,
    pub live_confirm_real_money: bool,
    pub live_confirm_polymarket_terms: bool,
}

/// The default trading settings: paper trading on 15 minute windows, one
/// window back and two ahead, markets polled every 4 s and signals every
/// 0.25 s, a 20 s opening grace, and every live-order switch off.
pub open spec fn is_default_trading(t: TradingConfig) -> bool {
    &&& t.mode@ == "paper"@
    &&& t.timeframe@ == "15m"@
    // 4.0
    &&& t.market_poll_interval_seconds.bits == 0x4010_0000_0000_0000u64
    // 0.25
    &&& t.signal_interval_seconds.bits == 0x3fd0_0000_0000_0000u64
    &&& t.lookback_windows == 1
    &&& t.lookahead_windows == 2
    &&& t.opening_capture_grace_seconds == 20
    &&& !t.live_enable_orders
    &&& !t.live_confirm_real_money
    &&& !t.live_confirm_polymarket_terms
}

impl Default for TradingConfig {
    fn default() -> (res: Self)
        ensures
            is_default_trading(res),
    {
        TradingConfig {
            mode: "paper".to_owned(),
            timeframe: "15m".to_owned(),
            market_poll_interval_seconds: Binary64::from_bits(0x4010_0000_0000_0000),
            signal_interval_seconds: Binary64::from_bits(0x3fd0_0000_0000_0000),
            lookback_windows: 1,
            lookahead_windows: 2,
            opening_capture_grace_seconds: 20,
            live_enable_orders: false,
            live_confirm_real_money: false,
            live_confirm_polymarket_terms: false,
        }
    }
}

/// Thresholds of the signal engine.
#[derive(Debug, Clone, Copy)]
pub struct RiskConfig {
    pub min_signal_distance_bps: Binary64,
    pub probability_scale_bps: Binary64,
    pub probability_cap: Binary64,
    pub min_probability_edge: Binary64,
    pub min_entry_price: Binary64,
    pub max_entry_price: Binary64,
    pub min_elapsed_seconds: Binary64,
    pub max_seconds_to_expiry: Binary64,
}

/// The default thresholds: signals from 4 bps away, probability scale 12 bps
/// capped at 0.88, an edge of at least 0.04, entry prices between 0.05 and
/// 0.92, at least 1 s into the window and at least 8 s before its end.
pub open spec fn is_default_risk(r: RiskConfig) -> bool {
    // 4.0
    &&& r.min_signal_distance_bps.bits == 0x4010_0000_0000_0000u64
    // 12.0
    &&& r.probability_scale_bps.bits == 0x4028_0000_0000_0000u64
    // 0.88
    &&& r.probability_cap.bits == 0x3fec_28f5_c28f_5c29u64
    // 0.04
    &&& r.min_probability_edge.bits == 0x3fa4_7ae1_47ae_147bu64
    // 0.05
    &&& r.min_entry_price.bits == 0x3fa9_9999_9999_999au64
    // 0.92
    &&& r.max_entry_price.bits == 0x3fed_70a3_d70a_3d71u64
    // 1.0
    &&& r.min_elapsed_seconds.bits == 0x3ff0_0000_0000_0000u64
    // 8.0
    &&& r.max_seconds_to_expiry.bits == 0x4020_0000_0000_0000u64
}

impl Default for RiskConfig {
    fn default() -> (res: Self)
        ensures
            is_default_risk(res),
    {
        RiskConfig {
            min_signal_distance_bps: Binary64::from_bits(0x4010_0000_0000_0000),
            probability_scale_bps: Binary64::from_bits(0x4028_0000_0000_0000),
            probability_cap: Binary64::from_bits(0x3fec_28f5_c28f_5c29),
            min_probability_edge: Binary64::from_bits(0x3fa4_7ae1_47ae_147b),
            min_entry_price: Binary64::from_bits(0x3fa9_9999_9999_999a),
            max_entry_price: Binary64::from_bits(0x3fed_70a3_d70a_3d71),
            min_elapsed_seconds: Binary64::from_bits(0x3ff0_0000_0000_0000),
            max_seconds_to_expiry: Binary64::from_bits(0x4020_0000_0000_0000),
        }
    }
}

/// Exchange endpoints.
#[derive(Debug)]
pub struct PolymarketConfig {
    pub gamma_base_url: String,
    pub market_ws_url: String,
    pub rtds_ws_url: String,
    pub market_ws_ping_payload: String,
}

/// The default endpoints: the public Polymarket services and the `PING`
/// keep-alive.
pub open spec fn is_default_polymarket(p: PolymarketConfig) -> bool {
    &&& p.gamma_base_url@ == "https://gamma-api.polymarket.com"@
    &&& p.market_ws_url@ == "wss://ws-subscriptions-clob.polymarket.com/ws/market"@
    &&& p.rtds_ws_url@ == "wss://ws-live-data.polymarket.com"@
    &&& p.market_ws_ping_payload@ == "PING"@
}

impl Default for PolymarketConfig {
    fn default() -> (res: Self)
        ensures
            is_default_polymarket(res),
    {
        PolymarketConfig {
            gamma_base_url: "https://gamma-api.polymarket.com".to_owned(),
            market_ws_url: "wss://ws-subscriptions-clob.polymarket.com/ws/market".to_owned(),
            rtds_ws_url: "wss://ws-live-data.polymarket.com".to_owned(),
            market_ws_ping_payload: "PING".to_owned(),
        }
    }
}

/// The whole configuration.
#[derive(Debug)]
pub struct AppConfig {
    pub trading: TradingConfig,
    pub risk: RiskConfig,
    pub polymarket: PolymarketConfig,
    pub assets: Vec<AssetConfig>,
}

impl Default for AppConfig {
    /// Default trading, risk and endpoint settings, and BTC, ETH, SOL and XRP
    /// enabled.
    fn default() -> (res: Self)
        ensures
            res.assets@.len() == 4,
            res.assets@[0].symbol@ == "BTC"@ && res.assets@[0].slug_prefix@ == "btc"@
                && res.assets@[0].chainlink_symbol@ == "btc/usd"@,
            res.assets@[1].symbol@ == "ETH"@ && res.assets@[1].slug_prefix@ == "eth"@
                && res.assets@[1].chainlink_symbol@ == "eth/usd"@,
            res.assets@[2].symbol@ == "SOL"@ && res.assets@[2].slug_prefix@ == "sol"@
                && res.assets@[2].chainlink_symbol@ == "sol/usd"@,
            res.assets@[3].symbol@ == "XRP"@ && res.assets@[3].slug_prefix@ == "xrp"@
                && res.assets@[3].chainlink_symbol@ == "xrp/usd"@,
            forall|i: int| 0 <= i < 4 ==> #[trigger] res.assets@[i].enabled,
            is_default_trading(res.trading),
            is_default_risk(res.risk),
            is_default_polymarket(res.polymarket),
    {
        let mut assets: Vec<AssetConfig> = Vec::new();
        assets.push(AssetConfig::new("BTC", "btc", "btc/usd"));
        assets.push(AssetConfig::new("ETH", "eth", "eth/usd"));
        assets.push(AssetConfig::new("SOL", "sol", "sol/usd"));
        assets.push(AssetConfig::new("XRP", "xrp", "xrp/usd"));
        AppConfig {
            trading: TradingConfig::default(),
            risk: RiskConfig::default(),
            polymarket: PolymarketConfig::default(),
            assets,
        }
    }
}

/// A configuration the bot refuses to run with.
#[derive(Debug, PartialEq, Eq, Structural)]
pub enum ConfigError {
    /// The trading mode is not `paper`.
    UnsupportedMode,
    /// No asset is enabled.
    NoEnabledAssets,
}

impl ConfigError {
    /// The error text.
    pub fn message(&self) -> (res: String)
        ensures
            *self == ConfigError::UnsupportedMode ==> res@
                == "Rust skeleton only supports paper mode for now"@,
            *self == ConfigError::NoEnabledAssets ==> res@ == "at least one asset must be enabled"@,
    {
        let mut s = String::new();
        match self {
            ConfigError::UnsupportedMode => push_str(
                &mut s,
                "Rust skeleton only supports paper mode for now",
            ),
            ConfigError::NoEnabledAssets => push_str(&mut s, "at least one asset must be enabled"),
        }
        s
    }
}

/// The enabled assets among `assets`, in order.
pub open spec fn enabled_of(assets: Seq<AssetConfig>) -> Seq<AssetConfig>
    decreases assets.len(),
{
    if assets.len() == 0 {
        Seq::empty()
    } else if assets.last().enabled {
        enabled_of(assets.drop_last()).push(assets.last())
    } else {
        enabled_of(assets.drop_last())
    }
}

/// Some asset is enabled.
pub open spec fn has_enabled(assets: Seq<AssetConfig>) -> bool {
    exists|i: int| 0 <= i < assets.len() && #[trigger] assets[i].enabled
}

/// There are enabled assets exactly when some asset is enabled.
pub proof fn lemma_enabled_nonempty(assets: Seq<AssetConfig>)
    ensures
        enabled_of(assets).len() > 0 <==> has_enabled(assets),
    decreases assets.len(),
{
    if assets.len() > 0 {
        lemma_enabled_nonempty(assets.drop_last());
        if has_enabled(assets.drop_last()) {
            let i = choose|i: int| 0 <= i < assets.drop_last().len() && #[trigger] assets.drop_last()[i].enabled;
            assert(assets[i].enabled);
        }
        if has_enabled(assets) && !assets.last().enabled {
            let i = choose|i: int| 0 <= i < assets.len() && #[trigger] assets[i].enabled;
            assert(assets.drop_last()[i].enabled);
        }
        if assets.last().enabled {
            assert(assets[assets.len() - 1].enabled);
        }
    }
}

impl AppConfig {
    /// Copies of the enabled assets, in configuration order.
    pub fn enabled_assets(&self) -> (res: Vec<AssetConfig>)
        ensures
            res@ == enabled_of(self.assets@),
    {
        let mut out: Vec<AssetConfig> = Vec::new();
        let mut i: usize = 0;
        while i < self.assets.len()
            invariant
                i <= self.assets.len(),
                out@ == enabled_of(self.assets@.subrange(0, i as int)),
            decreases self.assets.len() - i,
        {
            let ghost prefix = self.assets@.subrange(0, i as int);
            assert(self.assets@.subrange(0, i + 1).drop_last() =~= prefix);
            assert(self.assets@.subrange(0, i + 1).last() == self.assets@[i as int]);
            if self.assets[i].enabled {
                out.push(self.assets[i].clone());
            }
            i = i + 1;
        }
        assert(self.assets@.subrange(0, self.assets.len() as int) =~= self.assets@);
        out
    }

    /// Accepts paper trading with at least one enabled asset.
    pub fn validate(&self) -> (res: Result<(), ConfigError>)
        ensures
            self.trading.mode@ != "paper"@ ==> res == Err::<(), ConfigError>(
                ConfigError::UnsupportedMode,
            ),
            self.trading.mode@ == "paper"@ && !has_enabled(self.assets@) ==> res == Err::<
                (),
                ConfigError,
            >(ConfigError::NoEnabledAssets),
            res is Ok <==> (self.trading.mode@ == "paper"@ && has_enabled(self.assets@)),
    {
        if !str_eq(self.trading.mode.as_str(), "paper") {
            return Err(ConfigError::UnsupportedMode);
        }
        proof {
            lemma_enabled_nonempty(self.assets@);
        }
        if self.enabled_assets().len() == 0 {
            return Err(ConfigError::NoEnabledAssets);
        }
        Ok(())
    }
}

} // verus!
