use oracle_bot::binary64::Binary64;
use oracle_bot::config::AssetConfig;
use oracle_bot::gamma::{
    collect_windows, event_url, json_string_array, normalize_base_url, parse_market_event,
    parse_time_to_ts, start_from_slug, window_from_parts, window_requests,
};
use oracle_bot::json::{JsonMember, JsonNumber, JsonString, JsonValue};

fn bits(f: f64) -> Binary64 {
    Binary64::from_bits(f.to_bits())
}

fn json(v: &serde_json::Value) -> JsonValue {
    match v {
        serde_json::Value::Null => JsonValue::Null,
        serde_json::Value::Bool(b) => JsonValue::Bool(*b),
        serde_json::Value::Number(n) => JsonValue::Number(JsonNumber {
            text: n.to_string(),
            integer: n.as_i64(),
            float: n.as_f64().map(bits),
        }),
        serde_json::Value::String(s) => JsonValue::String(JsonString {
            text: s.clone(),
            float: s.parse::<f64>().ok().map(bits),
        }),
        serde_json::Value::Array(items) => JsonValue::Array(items.iter().map(json).collect()),
        serde_json::Value::Object(m) => JsonValue::Object(
            m.iter()
                .map(|(k, v)| JsonMember { key: k.clone(), value: json(v) })
                .collect(),
        ),
    }
}

fn parse(text: &str) -> JsonValue {
    json(&serde_json::from_str::<serde_json::Value>(text).unwrap())
}

fn btc() -> AssetConfig {
    AssetConfig {
        symbol: "BTC".into(),
        slug_prefix: "btc".into(),
        chainlink_symbol: "btc/usd".into(),
        enabled: true,
    }
}

#[test]
fn parses_gamma_event() {
    let asset = AssetConfig {
        symbol: "BTC".into(),
        slug_prefix: "btc".into(),
        chainlink_symbol: "btc/usd".into(),
        enabled: true,
    };
    let event = parse(
        r#"{
            "id": "1",
            "slug": "btc-updown-15m-1777738500",
            "active": true,
            "closed": false,
            "markets": [{
                "id": "2",
                "conditionId": "0xabc",
                "eventStartTime": "2026-05-02T16:15:00Z",
                "endDate": "2026-05-02T16:30:00Z",
                "outcomes": "[\"Up\",\"Down\"]",
                "clobTokenIds": "[\"up-token\",\"down-token\"]",
                "active": true,
                "closed": false,
                "acceptingOrders": true
            }]
        }"#,
    );
    let market = parse_market_event(&asset, &event).unwrap();
    assert_eq!(market.start_ts, 1777738500);
    assert_eq!(market.up_token_id, "up-token");
}

#[test]
fn gamma_event_fields_and_defaults() {
    let event = parse(
        r#"{
            "id": 17,
            "slug": "btc-updown-15m-1777738500",
            "markets": [{
                "id": "2",
                "conditionId": "0xabc",
                "endDate": "2026-05-02 16:30:00+00",
                "outcomes": ["Down", "Up"],
                "clobTokenIds": ["d", "u"],
                "active": true,
                "closed": false,
                "negRisk": true,
                "acceptingOrders": true,
                "orderPriceMinTickSize": "0.001",
                "priceToBeat": 0
            }]
        }"#,
    );
    let m = parse_market_event(&btc(), &event).unwrap();
    assert_eq!(m.asset, "BTC");
    assert_eq!(m.event_id, "17");
    assert_eq!(m.market_id, "2");
    assert_eq!(m.condition_id, "0xabc");
    assert_eq!(m.start_ts, 1777738500);
    assert_eq!(m.end_ts, 1777739400);
    assert_eq!(m.up_token_id, "u");
    assert_eq!(m.down_token_id, "d");
    assert_eq!(f64::from_bits(m.tick_size.bits), 0.001);
    assert_eq!(f64::from_bits(m.min_order_size.bits), 5.0);
    assert!(m.neg_risk);
    assert!(m.active);
    assert!(!m.closed);
    assert!(m.accepting_orders);
    assert!(m.price_to_beat.is_none());
}

#[test]
fn gamma_event_closed_by_event_and_price_to_beat() {
    let event = parse(
        r#"{
            "slug": "sol-updown-5m-300",
            "active": false,
            "closed": true,
            "startTime": "1970-01-01T00:05:00Z",
            "endDate": "1970-01-01T00:10:00Z",
            "markets": [{
                "outcomes": "[\"Up\",\"Down\"]",
                "clobTokenIds": "[\"a\",\"b\"]",
                "active": true,
                "priceToBeat": "101.5",
                "orderMinSize": 10
            }]
        }"#,
    );
    let m = parse_market_event(&btc(), &event).unwrap();
    assert_eq!(m.start_ts, 300);
    assert_eq!(m.end_ts, 600);
    assert!(!m.active);
    assert!(m.closed);
    assert!(!m.accepting_orders);
    assert_eq!(m.event_id, "");
    assert_eq!(f64::from_bits(m.price_to_beat.unwrap().bits), 101.5);
    assert_eq!(f64::from_bits(m.min_order_size.bits), 10.0);
    assert_eq!(f64::from_bits(m.tick_size.bits), 0.01);
}

#[test]
fn gamma_event_rejections() {
    // No markets.
    assert!(parse_market_event(&btc(), &parse(r#"{"slug": "x-1", "markets": []}"#)).is_none());
    // Outcomes and tokens of different lengths.
    let uneven = parse(
        r#"{"slug": "x-1", "markets": [{"outcomes": ["Up", "Down"], "clobTokenIds": ["a"],
            "endDate": "2026-05-02T16:30:00Z"}]}"#,
    );
    assert!(parse_market_event(&btc(), &uneven).is_none());
    // No Down token.
    let no_down = parse(
        r#"{"slug": "x-1", "markets": [{"outcomes": ["Up", "Flat"], "clobTokenIds": ["a", "b"],
            "endDate": "2026-05-02T16:30:00Z"}]}"#,
    );
    assert!(parse_market_event(&btc(), &no_down).is_none());
    // No end date.
    let no_end = parse(
        r#"{"slug": "x-1", "markets": [{"outcomes": ["Up", "Down"], "clobTokenIds": ["a", "b"]}]}"#,
    );
    assert!(parse_market_event(&btc(), &no_end).is_none());
    // No start time anywhere, and the slug does not end in a number.
    let no_start = parse(
        r#"{"slug": "x-y", "markets": [{"outcomes": ["Up", "Down"], "clobTokenIds": ["a", "b"],
            "endDate": "2026-05-02T16:30:00Z"}]}"#,
    );
    assert!(parse_market_event(&btc(), &no_start).is_none());
    // The event's slug is not a string: no fallback to the market's.
    let bad_slug = parse(
        r#"{"slug": 5, "markets": [{"slug": "x-1", "outcomes": ["Up", "Down"],
            "clobTokenIds": ["a", "b"], "endDate": "2026-05-02T16:30:00Z"}]}"#,
    );
    assert!(parse_market_event(&btc(), &bad_slug).is_none());
    // The market's slug is used when the event has none.
    let market_slug = parse(
        r#"{"markets": [{"slug": "x-60", "outcomes": ["Up", "Down"],
            "clobTokenIds": ["a", "b"], "endDate": "2026-05-02T16:30:00Z"}]}"#,
    );
    let m = parse_market_event(&btc(), &market_slug).unwrap();
    assert_eq!(m.slug, "x-60");
    assert_eq!(m.start_ts, 60);
}

#[test]
fn later_outcome_label_wins() {
    let event = parse(
        r#"{"slug": "x-1", "markets": [{"outcomes": ["Up", "Down", "Up"],
            "clobTokenIds": ["a", "b", "c"], "endDate": "2026-05-02T16:30:00Z"}]}"#,
    );
    let m = parse_market_event(&btc(), &event).unwrap();
    assert_eq!(m.up_token_id, "c");
    assert_eq!(m.down_token_id, "b");
}

#[test]
fn slug_start_times() {
    assert_eq!(start_from_slug("btc-updown-15m-1777738500"), Some(1777738500));
    assert_eq!(start_from_slug("1777738500"), Some(1777738500));
    assert_eq!(start_from_slug("btc-updown-15m-"), None);
    assert_eq!(start_from_slug("a--5"), Some(5));
    assert_eq!(start_from_slug("a-+7"), Some(7));
    assert_eq!(start_from_slug("a-99999999999999999999"), None);
}

#[test]
fn string_arrays() {
    assert_eq!(
        json_string_array(&parse(r#"["a", "b"]"#)).unwrap(),
        vec!["a".to_string(), "b".to_string()]
    );
    assert_eq!(
        json_string_array(&parse(r#""[\"x\"]""#)).unwrap(),
        vec!["x".to_string()]
    );
    assert!(json_string_array(&parse(r#"["a", 1]"#)).is_none());
    assert!(json_string_array(&parse(r#""not json""#)).is_none());
    assert!(json_string_array(&parse(r#""[1]""#)).is_none());
    assert!(json_string_array(&parse("3")).is_none());
}

#[test]
fn time_fields() {
    assert_eq!(
        parse_time_to_ts(Some(&parse(r#""2026-05-02T16:15:00Z""#))),
        Some(1777738500)
    );
    assert_eq!(
        parse_time_to_ts(Some(&parse(r#""  2026-05-02 16:15:00+00 ""#))),
        Some(1777738500)
    );
    assert_eq!(
        parse_time_to_ts(Some(&parse(r#""2026-05-02T18:15:00+02:00""#))),
        Some(1777738500)
    );
    assert_eq!(parse_time_to_ts(Some(&parse(r#""   ""#))), None);
    assert_eq!(parse_time_to_ts(Some(&parse("1777738500"))), None);
    assert_eq!(parse_time_to_ts(None), None);
    assert_eq!(parse_time_to_ts(Some(&parse(r#""yesterday""#))), None);
}

#[test]
fn discovery_requests() {
    let assets = vec![btc(), AssetConfig::new("ETH", "eth", "eth/usd")];
    let reqs = window_requests(&assets, "15m", 1777738948, 1, 0).unwrap();
    let slugs: Vec<&str> = reqs.iter().map(|(_, s)| s.as_str()).collect();
    assert_eq!(
        slugs,
        vec![
            "btc-updown-15m-1777737600",
            "btc-updown-15m-1777738500",
            "eth-updown-15m-1777737600",
            "eth-updown-15m-1777738500",
        ]
    );
    assert_eq!(reqs[2].0.symbol, "ETH");
    assert!(window_requests(&assets, "2m", 0, 1, 1).is_err());
}

#[test]
fn discovery_responses() {
    let assets = vec![btc(), btc(), btc()];
    let reqs = window_requests(&assets, "5m", 0, 0, 0).unwrap();
    let good = parse(
        r#"{"slug": "btc-updown-5m-0", "markets": [{"outcomes": ["Up", "Down"],
            "clobTokenIds": ["a", "b"], "endDate": "1970-01-01T00:05:00Z"}]}"#,
    );
    let responses: Vec<Result<Option<JsonValue>, String>> =
        vec![Ok(Some(good)), Ok(None), Ok(Some(parse("{}")))];
    let markets = collect_windows(&reqs, responses).unwrap();
    assert_eq!(markets.len(), 1);
    assert_eq!(markets[0].up_token_id, "a");
    let failing: Vec<Result<Option<JsonValue>, String>> =
        vec![Ok(None), Err("first".into()), Err("second".into())];
    assert_eq!(collect_windows(&reqs, failing).unwrap_err(), "first");
}

#[test]
fn catalogue_addresses() {
    assert_eq!(
        normalize_base_url("https://gamma-api.polymarket.com//"),
        "https://gamma-api.polymarket.com"
    );
    assert_eq!(
        event_url("https://gamma-api.polymarket.com", "btc-updown-15m-1"),
        "https://gamma-api.polymarket.com/events/slug/btc-updown-15m-1"
    );
}

#[test]
fn window_from_parsed_parts() {
    let event = parse(r#"{"id": 7, "active": true, "closed": false}"#);
    let raw = parse(
        r#"{"id": "2", "conditionId": "0xabc", "active": true, "acceptingOrders": true,
            "orderMinSize": "2.5", "priceToBeat": 100.5}"#,
    );
    let strings = |v: &[&str]| v.iter().map(|s| s.to_string()).collect::<Vec<String>>();
    let m = window_from_parts(
        &btc(),
        &event,
        &raw,
        &strings(&["Down", "Up"]),
        &strings(&["d-token", "u-token"]),
        "btc-updown-15m-1777738500".into(),
        1777738500,
        1777739400,
    )
    .unwrap();
    assert_eq!(m.asset, "BTC");
    assert_eq!(m.slug, "btc-updown-15m-1777738500");
    assert_eq!(m.event_id, "7");
    assert_eq!(m.market_id, "2");
    assert_eq!(m.condition_id, "0xabc");
    assert_eq!((m.start_ts, m.end_ts), (1777738500, 1777739400));
    assert_eq!((m.up_token_id.as_str(), m.down_token_id.as_str()), ("u-token", "d-token"));
    assert_eq!(f64::from_bits(m.tick_size.bits), 0.01);
    assert_eq!(f64::from_bits(m.min_order_size.bits), 2.5);
    assert!(m.active && m.accepting_orders && !m.closed && !m.neg_risk);
    assert_eq!(m.price_to_beat.map(|b| f64::from_bits(b.bits)), Some(100.5));
    // The lists must pair up and name both outcomes.
    let slug = || "s".to_string();
    assert!(window_from_parts(&btc(), &event, &raw, &strings(&["Up"]), &strings(&["a", "b"]), slug(), 0, 1).is_none());
    assert!(window_from_parts(&btc(), &event, &raw, &strings(&["Up", "Yes"]), &strings(&["a", "b"]), slug(), 0, 1).is_none());
}
