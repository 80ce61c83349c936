//! The oracle price feed: which feed symbols belong to which assets, and how a
//! feed message becomes price ticks.
use vstd::arithmetic::power2::pow2;
use vstd::prelude::*;

use crate::config::AssetConfig;
use crate::json::{json_array, json_f64, json_get, json_i64, json_quoted, json_str, quote_json, JsonValue};
use crate::map::StrMap;
use crate::model::PriceTick;
use crate::text::{lowercase, push_str, str_eq, to_lowercase, to_uppercase, uppercase};

verus! {

/// The feed's keep-alive answer, or an empty frame: nothing to read.
pub open spec fn is_keepalive_spec(text: Seq<char>) -> bool {
    text.len() == 0 || text == "PONG"@
}

/// Whether a text frame is empty or the `PONG` keep-alive answer.
pub fn is_keepalive(text: &str) -> (res: bool)
    ensures
        res == is_keepalive_spec(text@),
{
    text.unicode_len() == 0 || str_eq(text, "PONG")
}

/// The feed symbol of each enabled asset, by upper-cased asset symbol; a later
/// asset wins over an earlier one with the same symbol.
pub open spec fn symbols_spec(assets: Seq<AssetConfig>) -> Map<Seq<char>, Seq<char>>
    decreases assets.len(),
{
    if assets.len() == 0 {
        Map::empty()
    } else {
        let a = assets.last();
        let m = symbols_spec(assets.drop_last());
        if a.enabled {
            m.insert(uppercase(a.symbol@), lowercase(a.chainlink_symbol@))
        } else {
            m
        }
    }
}

/// The characters of each value of a string map.
pub open spec fn text_values(m: Map<Seq<char>, String>) -> Map<Seq<char>, Seq<char>> {
    Map::new(|k: Seq<char>| m.contains_key(k), |k: Seq<char>| m[k]@)
}

/// The feed symbol of each enabled asset: upper-cased asset symbol to
/// lower-cased feed symbol.
pub fn symbols_by_asset(assets: &Vec<AssetConfig>) -> (res: StrMap<String>)
    ensures
        res.wf(),
        text_values(res.view()) == symbols_spec(assets@),
{
    let mut out: StrMap<String> = StrMap::new();
    let mut i: usize = 0;
    assert(text_values(out.view()) =~= symbols_spec(assets@.subrange(0, 0)));
    while i < assets.len()
        invariant
            i <= assets.len(),
            out.wf(),
            text_values(out.view()) == symbols_spec(assets@.subrange(0, i as int)),
        decreases assets.len() - i,
    {
        assert(assets@.subrange(0, i + 1).drop_last() =~= assets@.subrange(0, i as int));
        assert(assets@.subrange(0, i + 1).last() == assets@[i as int]);
        let ghost before = out.view();
        if assets[i].enabled {
            let k = to_uppercase(assets[i].symbol.as_str());
            let v = to_lowercase(assets[i].chainlink_symbol.as_str());
            let ghost (kv, vv) = (k@, v@);
            out.insert(k, v);
            assert(text_values(out.view()) =~= text_values(before).insert(kv, vv));
        }
        i = i + 1;
    }
    assert(assets@.subrange(0, assets.len() as int) =~= assets@);
    out
}

/// The asset of each feed symbol given pairs (asset, symbol) in order: the
/// symbol lower-cased, the asset upper-cased; a later pair wins.
pub open spec fn assets_spec(pairs: Seq<(Seq<char>, String)>) -> Map<Seq<char>, Seq<char>>
    decreases pairs.len(),
{
    if pairs.len() == 0 {
        Map::empty()
    } else {
        let (asset, symbol) = pairs.last();
        assets_spec(pairs.drop_last()).insert(lowercase(symbol@), uppercase(asset))
    }
}

/// Inverts an asset-to-symbol map into the feed symbol of each asset:
/// lower-cased symbol to upper-cased asset.
pub fn asset_by_symbol(symbols_by_asset: &StrMap<String>) -> (res: StrMap<String>)
    requires
        symbols_by_asset.wf(),
    ensures
        res.wf(),
        text_values(res.view()) == assets_spec(symbols_by_asset.pairs()),
{
    let ghost p = symbols_by_asset.pairs();
    let mut out: StrMap<String> = StrMap::new();
    let mut i: usize = 0;
    assert(text_values(out.view()) =~= assets_spec(p.subrange(0, 0)));
    while i < symbols_by_asset.len()
        invariant
            i <= p.len(),
            p == symbols_by_asset.pairs(),
            symbols_by_asset.wf(),
            out.wf(),
            text_values(out.view()) == assets_spec(p.subrange(0, i as int)),
        decreases p.len() - i,
    {
        assert(p.subrange(0, i + 1).drop_last() =~= p.subrange(0, i as int));
        assert(p.subrange(0, i + 1).last() == p[i as int]);
        let ghost before = out.view();
        let k = to_lowercase(symbols_by_asset.value_at(i).as_str());
        let v = to_uppercase(symbols_by_asset.key_at(i).as_str());
        let ghost (kv, vv) = (k@, v@);
        out.insert(k, v);
        assert(text_values(out.view()) =~= text_values(before).insert(kv, vv));
        i = i + 1;
    }
    assert(p.subrange(0, p.len() as int) =~= p);
    out
}

/// The tick a feed payload gives for `symbol`: the symbol must belong to an
/// asset, and the payload must carry a numeric `value` and an integer
/// `timestamp`.
pub open spec fn payload_tick_ok(symbol: Seq<char>, payload: JsonValue, assets: Map<Seq<char>, Seq<char>>) -> bool {
    &&& assets.contains_key(symbol)
    &&& (match json_get(payload, "value"@) {
        Some(v) => json_f64(v) is Some,
        None => false,
    })
    &&& (match json_get(payload, "timestamp"@) {
        Some(v) => json_i64(v) is Some,
        None => false,
    })
}

/// `tick` is what the payload says for `symbol`, apart from its receive time.
pub open spec fn payload_tick(symbol: Seq<char>, payload: JsonValue, assets: Map<Seq<char>, Seq<char>>, tick: PriceTick) -> bool {
    &&& tick.asset@ == assets[symbol]
    &&& tick.symbol@ == symbol
    &&& Some(tick.price) == (match json_get(payload, "value"@) {
        Some(v) => json_f64(v),
        None => None,
    })
    &&& Some(tick.feed_ts_ms) == (match json_get(payload, "timestamp"@) {
        Some(v) => json_i64(v),
        None => None,
    })
}

/// The tick a feed payload gives for `symbol`, received at `received_ts_ms`.
pub fn tick_from_payload(
    symbol: &str,
    payload: &JsonValue,
    asset_by_symbol: &StrMap<String>,
    received_ts_ms: i64,
) -> (res: Option<PriceTick>)
    requires
        asset_by_symbol.wf(),
    ensures
        res is Some <==> payload_tick_ok(symbol@, *payload, text_values(asset_by_symbol.view())),
        res matches Some(t) ==> payload_tick(
            symbol@,
            *payload,
            text_values(asset_by_symbol.view()),
            t,
        ) && t.received_ts_ms == received_ts_ms,
{
    let asset = match asset_by_symbol.get(symbol) {
        Some(a) => a,
        None => {
            return None;
        },
    };
    let price = match payload.get("value") {
        Some(v) => match v.as_f64() {
            Some(p) => p,
            None => {
                return None;
            },
        },
        None => {
            return None;
        },
    };
    let feed_ts_ms = match payload.get("timestamp") {
        Some(v) => match v.as_i64() {
            Some(t) => t,
            None => {
                return None;
            },
        },
        None => {
            return None;
        },
    };
    Some(
        PriceTick {
            asset: asset.clone(),
            symbol: symbol.to_owned(),
            price,
            feed_ts_ms,
            received_ts_ms,
        },
    )
}

/// The feed payloads of a message with their symbol: the items of
/// `payload.data` when it is an array, otherwise the payload itself.
pub open spec fn message_payloads(message: JsonValue) -> Seq<JsonValue> {
    match json_get(message, "payload"@) {
        Some(payload) => match json_get(payload, "data"@) {
            Some(d) => match json_array(d) {
                Some(items) => items,
                None => seq![payload],
            },
            None => seq![payload],
        },
        None => Seq::empty(),
    }
}

/// The symbol the message's payload names, lower-cased; empty when it names none.
pub open spec fn message_symbol(message: JsonValue) -> Seq<char> {
    let named = match json_get(message, "payload"@) {
        Some(payload) => match json_get(payload, "symbol"@) {
            Some(s) => match json_str(s) {
                Some(t) => t,
                None => Seq::empty(),
            },
            None => Seq::empty(),
        },
        None => Seq::empty(),
    };
    lowercase(named)
}

/// The payloads, among the first `n`, that give a tick.
pub open spec fn tick_positions(payloads: Seq<JsonValue>, symbol: Seq<char>, assets: Map<Seq<char>, Seq<char>>, n: int) -> Seq<int>
    decreases n,
{
    if n <= 0 {
        Seq::empty()
    } else {
        let p = tick_positions(payloads, symbol, assets, n - 1);
        if payload_tick_ok(symbol, payloads[n - 1], assets) {
            p.push(n - 1)
        } else {
            p
        }
    }
}

/// `ticks` are the price ticks of a feed message, in order: one for each of its
/// payloads that names a known symbol with a value and a timestamp, each
/// stamped as received at `received_ts_ms`.
pub open spec fn message_ticks(
    message: JsonValue,
    assets: Map<Seq<char>, Seq<char>>,
    received_ts_ms: i64,
    ticks: Seq<PriceTick>,
) -> bool {
    let payloads = message_payloads(message);
    let symbol = message_symbol(message);
    let pos = tick_positions(payloads, symbol, assets, payloads.len() as int);
    &&& ticks.len() == pos.len()
    &&& forall|j: int|
        0 <= j < pos.len() ==> payload_tick(symbol, payloads[#[trigger] pos[j]], assets, ticks[j])
    &&& forall|j: int| 0 <= j < ticks.len() ==> (#[trigger] ticks[j]).received_ts_ms == received_ts_ms
}

/// The price ticks of a feed message, in order: one for each of its payloads
/// that names a known symbol with a value and a timestamp, each stamped as
/// received at `received_ts_ms`.
pub fn ticks_from_message(message: &JsonValue, asset_by_symbol: &StrMap<String>, received_ts_ms: i64) -> (res: Vec<PriceTick>)
    requires
        asset_by_symbol.wf(),
    ensures
        message_ticks(*message, text_values(asset_by_symbol.view()), received_ts_ms, res@),
{
    let payload = match message.get("payload") {
        Some(p) => p,
        None => {
            return Vec::new();
        },
    };
    let symbol = match payload.get("symbol") {
        Some(s) => match s.as_str() {
            Some(t) => to_lowercase(t),
            None => to_lowercase(""),
        },
        None => to_lowercase(""),
    };
    proof {
        reveal_strlit("");
        assert(""@ =~= Seq::<char>::empty());
    }
    let ghost payloads = message_payloads(*message);
    let ghost assets = text_values(asset_by_symbol.view());
    let mut out: Vec<PriceTick> = Vec::new();
    match get_data_array(payload) {
        Some(items) => {
            let mut i: usize = 0;
            while i < items.len()
                invariant
                    i <= items.len(),
                    asset_by_symbol.wf(),
                    payloads == items@,
                    assets == text_values(asset_by_symbol.view()),
                    out@.len() == tick_positions(payloads, symbol@, assets, i as int).len(),
                    forall|j: int| 0 <= j < out@.len() ==> (#[trigger] out@[j]).received_ts_ms == received_ts_ms,
                    forall|j: int|
                        0 <= j < tick_positions(payloads, symbol@, assets, i as int).len()
                            ==> payload_tick(
                            symbol@,
                            payloads[#[trigger] tick_positions(payloads, symbol@, assets, i as int)[j]],
                            assets,
                            out@[j],
                        ),
                decreases items.len() - i,
            {
                match tick_from_payload(symbol.as_str(), &items[i], asset_by_symbol, received_ts_ms) {
                    Some(t) => {
                        out.push(t);
                    },
                    None => {},
                }
                i = i + 1;
            }
        },
        None => {
            assert(payloads =~= seq![*payload]);
            match tick_from_payload(symbol.as_str(), payload, asset_by_symbol, received_ts_ms) {
                Some(t) => {
                    out.push(t);
                },
                None => {},
            }
            assert(tick_positions(payloads, symbol@, assets, 0) =~= Seq::<int>::empty());
        },
    }
    out
}

/// The price ticks of a feed frame: none for a keep-alive frame or a frame
/// whose text is not a JSON document, otherwise the ticks of the document.
/// `document` is what decoding the frame's text as JSON gave.
pub fn ticks_from_frame(
    text: &str,
    document: Option<JsonValue>,
    asset_by_symbol: &StrMap<String>,
    received_ts_ms: i64,
) -> (res: Vec<PriceTick>)
    requires
        asset_by_symbol.wf(),
    ensures
        is_keepalive_spec(text@) || document is None ==> res@.len() == 0,
        !is_keepalive_spec(text@) ==> (document matches Some(m) ==> message_ticks(
            m,
            text_values(asset_by_symbol.view()),
            received_ts_ms,
            res@,
        )),
{
    if is_keepalive(text) {
        return Vec::new();
    }
    match document {
        Some(m) => ticks_from_message(&m, asset_by_symbol, received_ts_ms),
        None => Vec::new(),
    }
}

fn get_data_array(payload: &JsonValue) -> (res: Option<&Vec<JsonValue>>)
    ensures
        match res {
            Some(items) => json_get(*payload, "data"@) matches Some(d) && json_array(d) == Some(items@),
            None => !(json_get(*payload, "data"@) matches Some(d) && json_array(d) is Some),
        },
{
    match payload.get("data") {
        Some(d) => d.as_array(),
        None => None,
    }
}

/// Twice the wait, at most 30 seconds.
pub open spec fn backoff_step(delay: int) -> int {
    if delay * 2 < 30 {
        delay * 2
    } else {
        30
    }
}

/// The next wait before reconnecting: twice the last one, at most 30 seconds.
pub fn next_backoff_secs(current: u64) -> (res: u64)
    requires
        current <= u64::MAX / 2,
    ensures
        res == backoff_step(current as int),
{
    let doubled = current * 2;
    if doubled < 30 {
        doubled
    } else {
        30
    }
}


/// What follows a connection attempt made with reconnect delay `delay_secs`:
/// after a session that ended normally, reconnect at once and reset the delay
/// to one second; after a failure, wait the delay, then double it, at most
/// 30 seconds. Gives the wait, if any, and the next delay.
pub fn reconnect_step(delay_secs: u64, connected: bool) -> (res: (Option<u64>, u64))
    requires
        delay_secs <= u64::MAX / 2,
    ensures
        connected ==> res == (None::<u64>, 1u64),
        !connected ==> res.0 == Some(delay_secs) && res.1 == backoff_step(delay_secs as int),
{
    if connected {
        (None, 1)
    } else {
        (Some(delay_secs), next_backoff_secs(delay_secs))
    }
}

/// The reconnect delay after a run of attempts (`true` for a session that ended
/// normally, `false` for a failure), starting from one second.
pub open spec fn delay_after(results: Seq<bool>) -> int
    decreases results.len(),
{
    if results.len() == 0 {
        1
    } else if results.last() {
        1
    } else {
        backoff_step(delay_after(results.drop_last()))
    }
}

/// The number of failures at the end of the run, since the last success.
pub open spec fn trailing_failures(results: Seq<bool>) -> nat
    decreases results.len(),
{
    if results.len() == 0 || results.last() {
        0
    } else {
        trailing_failures(results.drop_last()) + 1
    }
}

/// Across any run of attempts the delay is `min(2^n, 30)` seconds with `n` the
/// failures since the last success: the waits after consecutive failures are
/// 1, 2, 4, 8, 16, 30, 30, ... seconds, and a success starts again from 1.
pub proof fn lemma_backoff_schedule(results: Seq<bool>)
    ensures
        delay_after(results) == (if pow2(trailing_failures(results)) < 30 {
            pow2(trailing_failures(results)) as int
        } else {
            30
        }),
        1 <= delay_after(results) <= 30,
    decreases results.len(),
{
    vstd::arithmetic::power2::lemma2_to64();
    if results.len() > 0 && !results.last() {
        lemma_backoff_schedule(results.drop_last());
        let n = trailing_failures(results);
        vstd::arithmetic::power2::lemma_pow2_unfold(n);
        assert(trailing_failures(results.drop_last()) == (n - 1) as nat);
    }
}


/// The filter of one feed subscription: `{"symbol":...}`.
pub open spec fn symbol_filter(symbol: Seq<char>) -> Seq<char> {
    "{\"symbol\":"@ + json_quoted(symbol) + "}"@
}

/// One feed subscription, its filter given as a JSON text in a string.
pub open spec fn feed_subscription(symbol: Seq<char>) -> Seq<char> {
    "{\"filters\":"@ + json_quoted(symbol_filter(symbol))
        + ",\"topic\":\"crypto_prices_chainlink\",\"type\":\"update\"}"@
}

/// The feed subscriptions of the symbols, separated by commas.
pub open spec fn feed_subscriptions(symbols: Seq<Seq<char>>) -> Seq<char>
    decreases symbols.len(),
{
    if symbols.len() == 0 {
        Seq::empty()
    } else if symbols.len() == 1 {
        feed_subscription(symbols[0])
    } else {
        feed_subscriptions(symbols.drop_last()) + ","@ + feed_subscription(symbols.last())
    }
}

/// The subscribe frame of the price feed:
/// `{"action":"subscribe","subscriptions":[...]}`.
pub open spec fn subscription_message_text(symbols: Seq<Seq<char>>) -> Seq<char> {
    "{\"action\":\"subscribe\",\"subscriptions\":["@ + feed_subscriptions(symbols) + "]}"@
}

/// The keys of the entries, in order.
pub open spec fn entry_keys(p: Seq<(Seq<char>, String)>) -> Seq<Seq<char>> {
    Seq::new(p.len(), |i: int| p[i].0)
}

/// The subscribe frame of the price feed, one subscription per feed symbol
/// of `asset_by_symbol`, in the order the symbols are stored.
pub fn subscription_message(asset_by_symbol: &StrMap<String>) -> (res: String)
    requires
        asset_by_symbol.wf(),
    ensures
        res@ == subscription_message_text(entry_keys(asset_by_symbol.pairs())),
{
    let ghost keys = entry_keys(asset_by_symbol.pairs());
    let mut out = String::new();
    push_str(&mut out, "{\"action\":\"subscribe\",\"subscriptions\":[");
    let ghost start = out@;
    let n = asset_by_symbol.len();
    let mut i: usize = 0;
    while i < n
        invariant
            i <= n == keys.len(),
            keys == entry_keys(asset_by_symbol.pairs()),
            asset_by_symbol.wf(),
            out@ == start + feed_subscriptions(keys.subrange(0, i as int)),
        decreases n - i,
    {
        let ghost done = keys.subrange(0, i as int);
        let ghost next = keys.subrange(0, i + 1);
        assert(next.drop_last() =~= done);
        let symbol = asset_by_symbol.key_at(i);
        assert(next.last() == symbol@);
        if i > 0 {
            push_str(&mut out, ",");
        }
        let mut filter = String::new();
        push_str(&mut filter, "{\"symbol\":");
        let q = quote_json(symbol.as_str());
        push_str(&mut filter, q.as_str());
        push_str(&mut filter, "}");
        assert(filter@ =~= symbol_filter(symbol@));
        push_str(&mut out, "{\"filters\":");
        let qf = quote_json(filter.as_str());
        push_str(&mut out, qf.as_str());
        push_str(&mut out, ",\"topic\":\"crypto_prices_chainlink\",\"type\":\"update\"}");
        proof {
            if i == 0 {
                assert(out@ =~= start + feed_subscriptions(next));
            } else {
                assert(out@ =~= start + feed_subscriptions(next));
            }
        }
        i = i + 1;
    }
    assert(keys.subrange(0, n as int) =~= keys);
    push_str(&mut out, "]}");
    assert(out@ =~= subscription_message_text(keys));
    out
}

} // verus!
