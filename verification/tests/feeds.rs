use oracle_bot::binary64::Binary64;
use oracle_bot::chainlink::{
    asset_by_symbol, is_keepalive, next_backoff_secs, reconnect_step, symbols_by_asset, tick_from_payload,
    subscription_message, ticks_from_frame, ticks_from_message,
};
use oracle_bot::clob_ws::{
    initial_subscription, market_messages, market_messages_from_frame, new_subscriptions,
    subscription_update, Subscriptions,
};
use oracle_bot::config::AssetConfig;
use oracle_bot::json::{JsonMember, JsonNumber, JsonString, JsonValue};
use oracle_bot::map::StrMap;
use serde_json::Value;

fn bits(f: f64) -> Binary64 {
    Binary64::from_bits(f.to_bits())
}

fn json(v: &serde_json::Value) -> JsonValue {
    match v {
        serde_json::Value::Null => JsonValue::Null,
        serde_json::Value::Bool(b) => JsonValue::Bool(*b),
        serde_json::Value::Number(n) => JsonValue::Number(JsonNumber {
            text: n.to_string(),
            integer: n.as_i64(),
            float: n.as_f64().map(bits),
        }),
        serde_json::Value::String(s) => JsonValue::String(JsonString {
            text: s.clone(),
            float: s.parse::<f64>().ok().map(bits),
        }),
        serde_json::Value::Array(items) => JsonValue::Array(items.iter().map(json).collect()),
        serde_json::Value::Object(m) => JsonValue::Object(
            m.iter()
                .map(|(k, v)| JsonMember { key: k.clone(), value: json(v) })
                .collect(),
        ),
    }
}

fn parse(text: &str) -> JsonValue {
    json(&serde_json::from_str::<serde_json::Value>(text).unwrap())
}

fn feed_assets() -> StrMap<String> {
    let assets = vec![
        AssetConfig::new("btc", "btc", "BTC/USD"),
        AssetConfig::new("ETH", "eth", "eth/usd"),
        AssetConfig { enabled: false, ..AssetConfig::new("SOL", "sol", "sol/usd") },
    ];
    let symbols = symbols_by_asset(&assets);
    assert_eq!(symbols.len(), 2);
    assert_eq!(symbols.get("BTC").unwrap(), "btc/usd");
    assert!(symbols.get("SOL").is_none());
    asset_by_symbol(&symbols)
}

#[test]
fn feed_symbols_map_to_assets() {
    let assets = feed_assets();
    assert_eq!(assets.len(), 2);
    assert_eq!(assets.get("btc/usd").unwrap(), "BTC");
    assert_eq!(assets.get("eth/usd").unwrap(), "ETH");
}

#[test]
fn ticks_from_single_payload() {
    let assets = feed_assets();
    let msg = parse(
        r#"{"payload": {"symbol": "BTC/USD", "value": 101.5, "timestamp": 1777738510000}}"#,
    );
    let ticks = ticks_from_message(&msg, &assets, 7);
    assert_eq!(ticks.len(), 1);
    assert_eq!(ticks[0].asset, "BTC");
    assert_eq!(ticks[0].symbol, "btc/usd");
    assert_eq!(f64::from_bits(ticks[0].price.bits), 101.5);
    assert_eq!(ticks[0].feed_ts_ms, 1777738510000);
    assert_eq!(ticks[0].received_ts_ms, 7);
}

#[test]
fn ticks_from_data_array() {
    let assets = feed_assets();
    let msg = parse(
        r#"{"payload": {"symbol": "eth/usd", "data": [
            {"value": 1, "timestamp": 10},
            {"value": "2", "timestamp": 11},
            {"value": 3, "timestamp": 12.5},
            {"value": 4, "timestamp": 13}
        ]}}"#,
    );
    let ticks = ticks_from_message(&msg, &assets, 7);
    let got: Vec<(f64, i64)> = ticks
        .iter()
        .map(|t| (f64::from_bits(t.price.bits), t.feed_ts_ms))
        .collect();
    assert_eq!(got, vec![(1.0, 10), (4.0, 13)]);
}

#[test]
fn ticks_need_known_symbol_and_payload() {
    let assets = feed_assets();
    assert!(ticks_from_message(&parse(r#"{"payload": {"symbol": "sol/usd", "value": 1, "timestamp": 1}}"#), &assets, 7).is_empty());
    assert!(ticks_from_message(&parse(r#"{"topic": "x"}"#), &assets, 7).is_empty());
    assert!(ticks_from_message(&parse(r#"{"payload": {"value": 1, "timestamp": 1}}"#), &assets, 7).is_empty());
    let t = tick_from_payload("btc/usd", &parse(r#"{"value": 2, "timestamp": 3}"#), &assets, 44).unwrap();
    assert_eq!(t.received_ts_ms, 44);
    assert_eq!(t.asset, "BTC");
}

#[test]
fn keepalive_frames() {
    assert!(is_keepalive(""));
    assert!(is_keepalive("PONG"));
    assert!(!is_keepalive("PING"));
    assert!(!is_keepalive("{}"));
}

#[test]
fn reconnect_backoff_doubles_up_to_thirty() {
    assert_eq!(next_backoff_secs(1), 2);
    assert_eq!(next_backoff_secs(8), 16);
    assert_eq!(next_backoff_secs(16), 30);
    assert_eq!(next_backoff_secs(30), 30);
}

#[test]
fn market_message_batches() {
    let batch = market_messages(parse(r#"[{"a": 1}, {"b": 2}]"#));
    assert_eq!(batch.len(), 2);
    let single = market_messages(parse(r#"{"a": 1}"#));
    assert_eq!(single.len(), 1);
}

#[test]
fn only_new_tokens_are_subscribed() {
    let subscribed = vec!["a".to_string(), "b".to_string()];
    let wanted = vec!["b".to_string(), "c".to_string(), "c".to_string(), "d".to_string()];
    assert_eq!(new_subscriptions(&subscribed, &wanted), vec!["c".to_string(), "d".to_string()]);
    assert!(new_subscriptions(&wanted, &subscribed[1..].to_vec()).is_empty());
    let wanted = vec!["z".to_string(), "b".to_string(), "y".to_string(), "a".to_string()];
    assert_eq!(
        new_subscriptions(&Vec::new(), &wanted),
        vec!["a".to_string(), "b".to_string(), "y".to_string(), "z".to_string()]
    );
}

#[test]
fn reconnect_waits_follow_the_schedule() {
    let mut delay = 1u64;
    let mut waits = Vec::new();
    for connected in [false, false, false, false, false, false, false, true, false, false] {
        let (wait, next) = reconnect_step(delay, connected);
        if let Some(w) = wait {
            waits.push(w);
        }
        delay = next;
    }
    assert_eq!(waits, vec![1, 2, 4, 8, 16, 30, 30, 1, 2]);
    assert_eq!(reconnect_step(30, true), (None, 1));
}

#[test]
fn each_token_is_subscribed_once_per_connection() {
    let strings = |v: &[&str]| v.iter().map(|s| s.to_string()).collect::<Vec<String>>();
    let mut subs = Subscriptions::new();
    assert_eq!(subs.subscribe(&strings(&["b", "a", "b"])), strings(&["a", "b"]));
    // Dropping a token does not unsubscribe it; adding one sends only it.
    assert_eq!(subs.subscribe(&strings(&["c", "a"])), strings(&["c"]));
    assert!(subs.subscribe(&strings(&["a", "b", "c"])).is_empty());
    assert!(Subscriptions::new().subscribe(&Vec::new()).is_empty());
}

fn decode(text: &str) -> Option<JsonValue> {
    serde_json::from_str::<serde_json::Value>(text).ok().map(|v| json(&v))
}

#[test]
fn frames_give_ticks_and_messages() {
    let assets = feed_assets();
    let frame = r#"{"payload": {"symbol": "btc/usd", "value": 5, "timestamp": 9}}"#;
    let ticks = ticks_from_frame(frame, decode(frame), &assets, 123);
    assert_eq!(ticks.len(), 1);
    assert_eq!((ticks[0].feed_ts_ms, ticks[0].received_ts_ms), (9, 123));
    // Keep-alive and undecodable frames give nothing.
    for frame in ["", "PONG", "{not json"] {
        assert!(ticks_from_frame(frame, decode(frame), &assets, 1).is_empty());
        assert!(market_messages_from_frame(frame, decode(frame)).is_empty());
    }
    let frame = r#"[{"event_type": "book"}, {"event_type": "price_change"}]"#;
    assert_eq!(market_messages_from_frame(frame, decode(frame)).len(), 2);
    let frame = r#"{"event_type": "book"}"#;
    assert_eq!(market_messages_from_frame(frame, decode(frame)).len(), 1);
}

fn obj(members: Vec<(&str, serde_json::Value)>) -> serde_json::Value {
    let mut map = serde_json::Map::new();
    for (key, value) in members {
        map.insert(key.to_string(), value);
    }
    serde_json::Value::Object(map)
}

fn strs(v: &[String]) -> serde_json::Value {
    serde_json::Value::Array(v.iter().map(|s| serde_json::Value::String(s.clone())).collect())
}

#[test]
fn subscription_frames_match_serde_json() {
    let ids = vec!["a\"b".to_string(), "tok\\en".to_string(), "\u{1}é".to_string()];
    assert_eq!(
        initial_subscription(&ids),
        obj(vec![
            ("assets_ids", strs(&ids)),
            ("type", Value::String("market".into())),
            ("custom_feature_enabled", Value::Bool(true)),
        ])
        .to_string()
    );
    assert_eq!(
        subscription_update(&ids),
        obj(vec![("operation", Value::String("subscribe".into())), ("assets_ids", strs(&ids))]).to_string()
    );
    assert_eq!(
        initial_subscription(&Vec::new()),
        r#"{"assets_ids":[],"custom_feature_enabled":true,"type":"market"}"#
    );
    let assets = feed_assets();
    let subscriptions: Vec<Value> = (0..assets.len())
        .map(|i| {
            let symbol = assets.key_at(i).clone();
            obj(vec![
                ("topic", Value::String("crypto_prices_chainlink".into())),
                ("type", Value::String("update".into())),
                ("filters", Value::String(obj(vec![("symbol", Value::String(symbol))]).to_string())),
            ])
        })
        .collect();
    assert_eq!(
        subscription_message(&assets),
        obj(vec![
            ("action", Value::String("subscribe".into())),
            ("subscriptions", Value::Array(subscriptions)),
        ])
        .to_string()
    );
}
