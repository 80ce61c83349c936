use oracle_bot::binary64::Binary64;
use oracle_bot::json::{JsonMember, JsonString, JsonValue};
use oracle_bot::model::{outcome_for, Event, MarketWindow, Outcome, PriceTick};
use oracle_bot::model::Quote;
use oracle_bot::state::{signal_eligible, RuntimeState};

fn bits(f: f64) -> Binary64 {
    Binary64::from_bits(f.to_bits())
}

fn tick(asset: &str, price: f64, feed_ts_ms: i64) -> PriceTick {
    PriceTick {
        asset: asset.into(),
        symbol: "btc/usd".into(),
        price: bits(price),
        feed_ts_ms,
        received_ts_ms: feed_ts_ms,
    }
}

fn market(asset: &str, start_ts: i64, up: &str, down: &str) -> MarketWindow {
    MarketWindow {
        asset: asset.into(),
        slug: format!("x-{start_ts}"),
        event_id: "1".into(),
        market_id: "2".into(),
        condition_id: "0xabc".into(),
        start_ts,
        end_ts: start_ts + 900,
        up_token_id: up.into(),
        down_token_id: down.into(),
        tick_size: bits(0.01),
        min_order_size: bits(5.0),
        neg_risk: false,
        active: true,
        closed: false,
        accepting_orders: true,
        price_to_beat: None,
    }
}

fn ptb(state: &RuntimeState, key: &str) -> Option<f64> {
    state
        .markets()
        .get(key)
        .unwrap()
        .price_to_beat
        .map(|b| f64::from_bits(b.bits))
}

#[test]
fn market_keys_and_tokens() {
    let m = market("BTC", 1777738500, "u", "d");
    assert_eq!(m.key(), "BTC:1777738500");
    assert_eq!(market("ETH", -60, "u", "d").key(), "ETH:-60");
    assert_eq!(m.token_for(Outcome::Up), "u");
    assert_eq!(m.token_for(Outcome::Down), "d");
    assert_eq!(Outcome::Up.name(), "Up");
    assert_eq!(Outcome::Down.name(), "Down");
}

#[test]
fn tick_captures_opening_price_once() {
    let mut state = RuntimeState::new(20);
    state.upsert_market(market("BTC", 1000, "u", "d"));
    state.upsert_market(market("ETH", 1000, "eu", "ed"));
    // Before the window opens: no capture.
    state.apply_tick(tick("BTC", 99.0, 999_999));
    assert_eq!(ptb(&state, "BTC:1000"), None);
    // Inside the grace period: captured.
    state.apply_tick(tick("BTC", 100.0, 1_005_000));
    assert_eq!(ptb(&state, "BTC:1000"), Some(100.0));
    // A later tick does not move it.
    state.apply_tick(tick("BTC", 101.0, 1_010_000));
    assert_eq!(ptb(&state, "BTC:1000"), Some(100.0));
    // Other assets are untouched.
    assert_eq!(ptb(&state, "ETH:1000"), None);
    // The last second of the grace period still counts.
    state.apply_tick(tick("ETH", 7.0, 1_020_999));
    assert_eq!(ptb(&state, "ETH:1000"), Some(7.0));
    let latest = state.latest_ticks().get("BTC").unwrap();
    assert_eq!(f64::from_bits(latest.price.bits), 101.0);
    assert_eq!(state.latest_ticks().len(), 2);
}

#[test]
fn tick_after_grace_period_is_ignored() {
    let mut state = RuntimeState::new(20);
    state.upsert_market(market("BTC", 1000, "u", "d"));
    state.apply_tick(tick("BTC", 100.0, 1_021_000));
    assert_eq!(ptb(&state, "BTC:1000"), None);
}

#[test]
fn upsert_backfills_from_recent_ticks() {
    let mut state = RuntimeState::new(20);
    state.apply_tick(tick("BTC", 98.0, 999_000));
    state.apply_tick(tick("BTC", 102.0, 1_004_000));
    state.apply_tick(tick("BTC", 101.0, 1_002_000));
    state.apply_tick(tick("BTC", 103.0, 1_002_000));
    state.apply_tick(tick("BTC", 104.0, 1_030_000));
    state.upsert_market(market("BTC", 1000, "u", "d"));
    assert_eq!(ptb(&state, "BTC:1000"), Some(101.0));
    // No tick in the window: no opening price.
    state.upsert_market(market("BTC", 5000, "u2", "d2"));
    assert_eq!(ptb(&state, "BTC:5000"), None);
    // An asset without ticks: no opening price.
    state.upsert_market(market("SOL", 1000, "s1", "s2"));
    assert_eq!(ptb(&state, "SOL:1000"), None);
}

#[test]
fn upsert_keeps_known_opening_price() {
    let mut state = RuntimeState::new(20);
    let mut m = market("BTC", 1000, "u", "d");
    m.price_to_beat = Some(bits(50.0));
    state.upsert_market(m);
    state.upsert_market(market("BTC", 1000, "u", "d"));
    assert_eq!(ptb(&state, "BTC:1000"), Some(50.0));
    let mut m2 = market("BTC", 1000, "u", "d");
    m2.price_to_beat = Some(bits(60.0));
    m2.closed = true;
    state.upsert_market(m2);
    assert_eq!(ptb(&state, "BTC:1000"), Some(60.0));
    assert!(state.markets().get("BTC:1000").unwrap().closed);
    assert_eq!(state.markets().len(), 1);
}

#[test]
fn recent_ticks_are_bounded() {
    let mut state = RuntimeState::new(20);
    for i in 0..2005i64 {
        state.apply_tick(tick("BTC", i as f64, 2_000_000 + i * 1000));
    }
    // The first ticks have been dropped: a window that only they covered
    // gets no opening price.
    state.upsert_market(market("BTC", 2000, "u", "d"));
    assert_eq!(ptb(&state, "BTC:2000"), Some(5.0));
}

#[test]
fn live_tokens_of_open_markets() {
    let mut state = RuntimeState::new(20);
    state.upsert_market(market("BTC", 1000, "u1", "d1"));
    let mut closed = market("BTC", 2000, "u2", "d2");
    closed.closed = true;
    state.upsert_market(closed);
    state.upsert_market(market("ETH", 1000, "u1", "e1"));
    let ids = state.live_token_ids();
    assert_eq!(ids, vec!["d1".to_string(), "e1".into(), "u1".into()]);
}

#[test]
fn snapshot_copies_state() {
    let mut state = RuntimeState::new(20);
    state.upsert_market(market("BTC", 1000, "u", "d"));
    state.apply_tick(tick("BTC", 100.0, 1_001_000));
    let snap = state.snapshot();
    assert_eq!(snap.markets.len(), 1);
    assert_eq!(snap.latest_ticks.len(), 1);
    assert_eq!(snap.orderbook.len(), 0);
    assert_eq!(
        snap.markets.get("BTC:1000").unwrap().price_to_beat.map(|b| f64::from_bits(b.bits)),
        Some(100.0)
    );
}

fn text(t: &str) -> JsonValue {
    JsonValue::String(JsonString { text: t.into(), float: t.parse::<f64>().ok().map(bits) })
}

fn object(members: Vec<(&str, JsonValue)>) -> JsonValue {
    JsonValue::Object(
        members
            .into_iter()
            .map(|(key, value)| JsonMember { key: key.into(), value })
            .collect(),
    )
}

fn level(price: &str, size: &str) -> JsonValue {
    object(vec![("price", text(price)), ("size", text(size))])
}

fn book_message(token: &str, bid: &str, ask: &str) -> JsonValue {
    object(vec![
        ("event_type", text("book")),
        ("asset_id", text(token)),
        ("bids", JsonValue::Array(vec![level(bid, "10")])),
        ("asks", JsonValue::Array(vec![level(ask, "10")])),
        ("timestamp", text("5")),
    ])
}

#[test]
fn outcome_follows_price_against_opening() {
    assert_eq!(outcome_for(bits(101.0), bits(100.0)), Outcome::Up);
    assert_eq!(outcome_for(bits(100.0), bits(100.0)), Outcome::Up);
    assert_eq!(outcome_for(bits(-0.0), bits(0.0)), Outcome::Up);
    assert_eq!(outcome_for(bits(99.0), bits(100.0)), Outcome::Down);
    assert_eq!(outcome_for(bits(f64::NAN), bits(100.0)), Outcome::Down);
    assert_eq!(outcome_for(bits(100.0), bits(f64::NAN)), Outcome::Down);
}

#[test]
fn events_reach_ticks_and_book() {
    let mut state = RuntimeState::new(20);
    state.upsert_market(market("BTC", 1000, "u", "d"));
    state.apply_event(Event::Tick(tick("BTC", 100.0, 1_001_000)));
    assert_eq!(ptb(&state, "BTC:1000"), Some(100.0));
    assert_eq!(state.latest_ticks().len(), 1);
    state.apply_event(Event::MarketMessage(book_message("u", "0.40", "0.45")));
    let quote = state.orderbook().quote("u").unwrap();
    assert_eq!(quote.best_bid.map(|b| f64::from_bits(b.bits)), Some(0.40));
    assert_eq!(quote.best_ask.map(|b| f64::from_bits(b.bits)), Some(0.45));
    assert_eq!(quote.ts_ms, Some(5));
    // A message of another type changes nothing.
    state.apply_event(Event::MarketMessage(object(vec![("event_type", text("trade"))])));
    assert_eq!(state.orderbook().len(), 1);
}

#[test]
fn signal_inputs_pick_the_favoured_quote() {
    let mut state = RuntimeState::new(20);
    // Opening price captured, price above it: the Up token is weighed.
    state.upsert_market(market("BTC", 1000, "bu", "bd"));
    state.apply_tick(tick("BTC", 100.0, 1_001_000));
    state.apply_tick(tick("BTC", 101.0, 1_002_000));
    // Opening price captured, price below it, but no quote for Down: skipped.
    state.upsert_market(market("ETH", 1000, "eu", "ed"));
    state.apply_tick(tick("ETH", 10.0, 1_001_000));
    state.apply_tick(tick("ETH", 9.0, 1_003_000));
    // No opening price: skipped.
    state.upsert_market(market("SOL", 5000, "su", "sd"));
    // No tick for the asset: skipped.
    let mut xrp = market("XRP", 1000, "xu", "xd");
    xrp.price_to_beat = Some(bits(1.0));
    state.upsert_market(xrp);
    for token in ["bu", "bd", "eu", "su", "sd", "xu", "xd"] {
        state.apply_market_message(&book_message(token, "0.40", "0.45"));
    }
    let inputs = state.snapshot().signal_inputs();
    assert_eq!(inputs.len(), 1);
    let input = &inputs[0];
    assert_eq!(input.market.key(), "BTC:1000");
    assert_eq!(input.outcome, Outcome::Up);
    assert_eq!(input.quote.token_id, "bu");
    assert_eq!(f64::from_bits(input.tick.price.bits), 101.0);
    // Once the Down quote of ETH arrives, ETH is weighed on its Down side.
    state.apply_market_message(&book_message("ed", "0.50", "0.55"));
    let inputs = state.snapshot().signal_inputs();
    assert_eq!(inputs.len(), 2);
    assert_eq!(inputs[1].market.key(), "ETH:1000");
    assert_eq!(inputs[1].outcome, Outcome::Down);
    assert_eq!(inputs[1].quote.token_id, "ed");
}

fn quote(token: &str, ask: Option<f64>) -> Quote {
    Quote {
        token_id: token.into(),
        best_bid: Some(bits(0.40)),
        best_ask: ask.map(bits),
        bid_size: None,
        ask_size: None,
        ts_ms: Some(1),
    }
}

#[test]
fn signal_eligibility_checks() {
    let mut m = market("BTC", 1000, "u", "d");
    m.price_to_beat = Some(bits(100.0));
    let up = tick("BTC", 101.0, 1_002_000);
    let down = tick("BTC", 99.0, 1_002_000);
    assert!(signal_eligible(&m, &up, &quote("u", Some(0.5))));
    assert!(signal_eligible(&m, &down, &quote("d", Some(0.5))));
    // The quote must be for the favoured outcome.
    assert!(!signal_eligible(&m, &up, &quote("d", Some(0.5))));
    // The quote must have an ask.
    assert!(!signal_eligible(&m, &up, &quote("u", None)));
    let mut closed = m.clone();
    closed.closed = true;
    assert!(!signal_eligible(&closed, &up, &quote("u", Some(0.5))));
    let mut inactive = m.clone();
    inactive.active = false;
    assert!(!signal_eligible(&inactive, &up, &quote("u", Some(0.5))));
    let mut not_accepting = m.clone();
    not_accepting.accepting_orders = false;
    assert!(!signal_eligible(&not_accepting, &up, &quote("u", Some(0.5))));
    let no_opening = market("BTC", 1000, "u", "d");
    assert!(!signal_eligible(&no_opening, &up, &quote("u", Some(0.5))));
}
