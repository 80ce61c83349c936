use oracle_bot::binary64::Binary64;
use oracle_bot::json::{JsonMember, JsonNumber, JsonString, JsonValue};
use oracle_bot::orderbook::{best_level, OrderBookState};

fn bits(f: f64) -> Binary64 {
    Binary64::from_bits(f.to_bits())
}

fn json(v: &serde_json::Value) -> JsonValue {
    match v {
        serde_json::Value::Null => JsonValue::Null,
        serde_json::Value::Bool(b) => JsonValue::Bool(*b),
        serde_json::Value::Number(n) => JsonValue::Number(JsonNumber {
            text: n.to_string(),
            integer: n.as_i64(),
            float: n.as_f64().map(bits),
        }),
        serde_json::Value::String(s) => JsonValue::String(JsonString {
            text: s.clone(),
            float: s.parse::<f64>().ok().map(bits),
        }),
        serde_json::Value::Array(items) => JsonValue::Array(items.iter().map(json).collect()),
        serde_json::Value::Object(m) => JsonValue::Object(
            m.iter()
                .map(|(k, v)| JsonMember { key: k.clone(), value: json(v) })
                .collect(),
        ),
    }
}

fn parse(text: &str) -> JsonValue {
    json(&serde_json::from_str::<serde_json::Value>(text).unwrap())
}

fn price(b: Option<Binary64>) -> Option<f64> {
    b.map(|b| f64::from_bits(b.bits))
}

#[test]
fn tracks_best_book_quote() {
    let mut book = OrderBookState::default();
    book.update_from_message(&parse(
        r#"{
            "event_type": "book",
            "asset_id": "up-token",
            "bids": [{"price": "0.40", "size": "1"}, {"price": "0.42", "size": "2"}],
            "asks": [{"price": "0.45", "size": "1"}, {"price": "0.44", "size": "2"}],
            "timestamp": "10"
        }"#,
    ));
    let quote = book.quote("up-token").unwrap();
    assert_eq!(price(quote.best_bid), Some(0.42));
    assert_eq!(price(quote.best_ask), Some(0.44));
}

#[test]
fn book_snapshot_sizes_and_time() {
    let mut book = OrderBookState::new();
    book.update_from_message(&parse(
        r#"{"event_type": "book", "asset_id": "t",
            "bids": [{"price": "x", "size": "9"}, {"price": 0.3, "size": 5}, {"price": "0.3", "size": "6"}],
            "asks": [],
            "timestamp": 77}"#,
    ));
    let q = book.quote("t").unwrap();
    assert_eq!(price(q.best_bid), Some(0.3));
    assert_eq!(price(q.bid_size), Some(5.0));
    assert_eq!(q.best_ask, None);
    assert_eq!(q.ask_size, None);
    assert_eq!(q.ts_ms, Some(77));
    assert_eq!(q.token_id, "t");
    assert_eq!(book.len(), 1);
}

#[test]
fn price_change_keeps_sizes() {
    let mut book = OrderBookState::new();
    book.update_from_message(&parse(
        r#"{"event_type": "book", "asset_id": "t",
            "bids": [{"price": "0.40", "size": "3"}], "asks": [{"price": "0.60", "size": "4"}],
            "timestamp": "1"}"#,
    ));
    book.update_from_message(&parse(
        r#"{"event_type": "price_change", "timestamp": "2",
            "price_changes": [{"asset_id": "t", "best_bid": "0.41"}, {"asset_id": "u", "best_ask": "0.7"},
                              {"best_bid": "0.1"}]}"#,
    ));
    let q = book.quote("t").unwrap();
    assert_eq!(price(q.best_bid), Some(0.41));
    assert_eq!(price(q.best_ask), Some(0.60));
    assert_eq!(price(q.bid_size), Some(3.0));
    assert_eq!(price(q.ask_size), Some(4.0));
    assert_eq!(q.ts_ms, Some(2));
    let u = book.quote("u").unwrap();
    assert_eq!(u.best_bid, None);
    assert_eq!(price(u.best_ask), Some(0.7));
    assert_eq!(u.bid_size, None);
    assert_eq!(book.len(), 2);
}

#[test]
fn best_bid_ask_replaces_prices() {
    let mut book = OrderBookState::new();
    book.update_from_message(&parse(
        r#"{"event_type": "book", "asset_id": "t",
            "bids": [{"price": "0.40", "size": "3"}], "asks": [{"price": "0.60", "size": "4"}]}"#,
    ));
    book.update_from_message(&parse(
        r#"{"event_type": "best_bid_ask", "asset_id": "t", "best_ask": "0.55", "timestamp": 5}"#,
    ));
    let q = book.quote("t").unwrap();
    assert_eq!(q.best_bid, None);
    assert_eq!(price(q.best_ask), Some(0.55));
    assert_eq!(price(q.bid_size), Some(3.0));
    assert_eq!(price(q.ask_size), Some(4.0));
    assert_eq!(q.ts_ms, Some(5));
}

#[test]
fn other_messages_change_nothing() {
    let mut book = OrderBookState::new();
    book.update_from_message(&parse(r#"{"event_type": "last_trade_price", "asset_id": "t"}"#));
    book.update_from_message(&parse(r#"{"asset_id": "t", "bids": []}"#));
    book.update_from_message(&parse(r#"{"event_type": "book"}"#));
    book.update_from_message(&parse(r#"[1, 2]"#));
    assert_eq!(book.len(), 0);
    assert!(book.quote("t").is_none());
}

#[test]
fn best_levels() {
    let levels = parse(r#"[{"price": "0.5"}, {"price": "0.7", "size": "1"}, {"price": "0.7", "size": "2"}, {"price": "0.1"}]"#);
    let (bid, bid_size) = best_level(Some(&levels), true);
    assert_eq!(price(bid), Some(0.7));
    assert_eq!(price(bid_size), Some(1.0));
    let (ask, ask_size) = best_level(Some(&levels), false);
    assert_eq!(price(ask), Some(0.1));
    assert_eq!(ask_size, None);
    assert_eq!(best_level(None, true), (None, None));
    assert_eq!(best_level(Some(&parse("{}")), true), (None, None));
}
