//! Market discovery: which market events to ask for, and how a market event
//! document becomes a `MarketWindow`.
use vstd::prelude::*;

use crate::binary64::Binary64;
use crate::config::AssetConfig;
use crate::json::{
    deref_opt,
    json_array,
    json_bool,
    json_get,
    json_str,
    lenient_f64,
    lenient_float,
    lenient_string,
    lenient_text,
    JsonValue,
};
use crate::model::MarketWindow;
use crate::text::{
    after_last,
    chars_of,
    parse_i64,
    parse_i64_spec,
    push_char,
    push_str,
    str_eq,
    text_after_last,
    to_uppercase,
    trim,
    trim_end_char,
    trim_end_matching,
    trim_spec,
    uppercase,
};
use crate::timeframe::{
    candidate_starts_spec,
    candidate_window_starts,
    candidates_fit,
    slug_for,
    slug_spec,
    timeframe_seconds_spec,
    window_floor,
    TimeframeError,
};

verus! {

// ---------------------------------------------------------------------------
// Outside parsers
// ---------------------------------------------------------------------------

/// What `chrono::DateTime::parse_from_rfc3339` reads from a text, as seconds
/// since the Unix epoch.
pub uninterp spec fn rfc3339_seconds(text: Seq<char>) -> Option<i64>;

/// What `serde_json` reads from a text as a JSON array of strings.
pub uninterp spec fn json_string_list(text: Seq<char>) -> Option<Seq<Seq<char>>>;

/// The characters of each string.
pub open spec fn string_views(v: Seq<String>) -> Seq<Seq<char>> {
    v.map_values(|s: String| s@)
}

/// Reads an RFC 3339 date-time with `chrono::DateTime::parse_from_rfc3339` and
/// gives its Unix timestamp in seconds; `None` when chrono rejects the text.
#[verifier::external_body]
fn parse_rfc3339_seconds(text: &str) -> (res: Option<i64>)
    ensures
        res == rfc3339_seconds(text@),
{
    chrono::DateTime::parse_from_rfc3339(text).ok().map(
        |dt| dt.with_timezone(&chrono::Utc).timestamp(),
    )
}

/// Reads a text as a JSON array of strings with `serde_json::from_str`; `None`
/// when serde_json rejects it.
#[verifier::external_body]
fn parse_json_string_list(text: &str) -> (res: Option<Vec<String>>)
    ensures
        match res {
            Some(v) => json_string_list(text@) == Some(string_views(v@)),
            None => json_string_list(text@) is None,
        },
{
    serde_json::from_str::<Vec<String>>(text).ok()
}

// ---------------------------------------------------------------------------
// Field readers
// ---------------------------------------------------------------------------

/// The texts of the items when every item is a string.
pub open spec fn strings_of(items: Seq<JsonValue>) -> Option<Seq<Seq<char>>>
    decreases items.len(),
{
    if items.len() == 0 {
        Some(Seq::empty())
    } else {
        match (strings_of(items.drop_last()), json_str(items.last())) {
            (Some(p), Some(t)) => Some(p.push(t)),
            _ => None,
        }
    }
}

/// A list of strings given either as a JSON array or as a text holding one.
pub open spec fn string_array_spec(value: JsonValue) -> Option<Seq<Seq<char>>> {
    match value {
        JsonValue::Array(items) => strings_of(items@),
        JsonValue::String(s) => json_string_list(s.text@),
        _ => None,
    }
}

/// A list of strings given either as a JSON array or as a text that holds a
/// JSON array.
pub fn json_string_array(value: &JsonValue) -> (res: Option<Vec<String>>)
    ensures
        match res {
            Some(v) => string_array_spec(*value) == Some(string_views(v@)),
            None => string_array_spec(*value) is None,
        },
{
    match value {
        JsonValue::Array(items) => {
            let mut out: Vec<String> = Vec::new();
            let mut i: usize = 0;
            while i < items.len()
                invariant
                    i <= items.len(),
                    string_array_spec(*value) == strings_of(items@),
                    strings_of(items@.subrange(0, i as int)) == Some(string_views(out@)),
                decreases items.len() - i,
            {
                let ghost prefix = items@.subrange(0, i as int);
                assert(items@.subrange(0, i + 1).drop_last() =~= prefix);
                assert(items@.subrange(0, i + 1).last() == items@[i as int]);
                match items[i].as_str() {
                    Some(t) => {
                        let ghost before = out@;
                        out.push(t.to_owned());
                        assert(string_views(out@) =~= string_views(before).push(t@));
                    },
                    None => {
                        proof {
                            lemma_strings_of_prefix(items@, i as int + 1);
                        }
                        return None;
                    },
                }
                i = i + 1;
            }
            assert(items@.subrange(0, items.len() as int) =~= items@);
            Some(out)
        },
        JsonValue::String(s) => parse_json_string_list(s.text.as_str()),
        _ => None,
    }
}

/// Once a prefix holds a non-string, so does every longer prefix.
proof fn lemma_strings_of_prefix(items: Seq<JsonValue>, n: int)
    requires
        0 <= n <= items.len(),
        strings_of(items.subrange(0, n)) is None,
    ensures
        strings_of(items) is None,
    decreases items.len() - n,
{
    if n < items.len() {
        assert(items.subrange(0, n + 1).drop_last() =~= items.subrange(0, n));
        lemma_strings_of_prefix(items, n + 1);
    } else {
        assert(items.subrange(0, n) =~= items);
    }
}

pub open spec fn space_to_t(c: char) -> char {
    if c == ' ' {
        'T'
    } else {
        c
    }
}

/// The text with every space replaced by `T`.
pub open spec fn replace_spaces(t: Seq<char>) -> Seq<char>
    decreases t.len(),
{
    if t.len() == 0 {
        t
    } else {
        replace_spaces(t.drop_last()).push(space_to_t(t.last()))
    }
}

pub open spec fn ends_with_utc_hours(t: Seq<char>) -> bool {
    t.len() >= 3 && t.subrange(t.len() - 3, t.len() as int) == seq!['+', '0', '0']
}

/// A date-time written with a space or a bare `+00` offset, brought to RFC 3339.
pub open spec fn normalize_time_text(t: Seq<char>) -> Seq<char> {
    let r = replace_spaces(t);
    if ends_with_utc_hours(r) {
        r + seq![':', '0', '0']
    } else {
        r
    }
}

/// The Unix timestamp of a date-time string field, if it has one.
pub open spec fn time_field_spec(value: Option<JsonValue>) -> Option<i64> {
    match value {
        Some(JsonValue::String(s)) => {
            let t = trim_spec(s.text@);
            if t.len() == 0 {
                None
            } else {
                rfc3339_seconds(normalize_time_text(t))
            }
        },
        _ => None,
    }
}

/// The Unix timestamp of a date-time string field: surrounding whitespace is
/// ignored, a space may separate date and time, and `+00` stands for `+00:00`.
pub fn parse_time_to_ts(value: Option<&JsonValue>) -> (res: Option<i64>)
    ensures
        res == time_field_spec(deref_opt(value)),
{
    let v = match value {
        Some(v) => v,
        None => {
            return None;
        },
    };
    let raw = match v.as_str() {
        Some(t) => t,
        None => {
            return None;
        },
    };
    let text = trim(raw);
    let chars = chars_of(text.as_str());
    let n = chars.len();
    if n == 0 {
        return None;
    }
    let mut normalized = String::new();
    let mut i: usize = 0;
    while i < n
        invariant
            i <= n == chars.len(),
            normalized@ == replace_spaces(chars@.subrange(0, i as int)),
        decreases n - i,
    {
        let c = chars[i];
        push_char(&mut normalized, if c == ' ' { 'T' } else { c });
        assert(chars@.subrange(0, i + 1).drop_last() =~= chars@.subrange(0, i as int));
        i = i + 1;
    }
    assert(chars@.subrange(0, n as int) =~= chars@);
    let nchars = chars_of(normalized.as_str());
    let m = nchars.len();
    if m >= 3 && nchars[m - 3] == '+' && nchars[m - 2] == '0' && nchars[m - 1] == '0' {
        assert(nchars@.subrange(m - 3, m as int) =~= seq!['+', '0', '0']);
        push_char(&mut normalized, ':');
        push_char(&mut normalized, '0');
        push_char(&mut normalized, '0');
        assert(normalized@ =~= replace_spaces(chars@) + seq![':', '0', '0']);
    } else {
        assert(!ends_with_utc_hours(nchars@)) by {
            if ends_with_utc_hours(nchars@) {
                assert(nchars@.subrange(m - 3, m as int)[0] == nchars@[m - 3]);
                assert(nchars@.subrange(m - 3, m as int)[1] == nchars@[m - 2]);
                assert(nchars@.subrange(m - 3, m as int)[2] == nchars@[m - 1]);
            }
        }
    }
    parse_rfc3339_seconds(normalized.as_str())
}

/// The start time written at the end of a slug: the text after its last `-`,
/// read as an `i64`.
pub fn start_from_slug(slug: &str) -> (res: Option<i64>)
    ensures
        res == parse_i64_spec(after_last(slug@, '-')),
{
    let tail = text_after_last(slug, '-');
    parse_i64(tail.as_str())
}

/// Reading the start time back from a slug gives the start time that made it,
/// for windows that start at or after the epoch.
pub proof fn lemma_slug_start_round_trip(prefix: Seq<char>, start_ts: i64, timeframe: Seq<char>)
    requires
        start_ts >= 0,
    ensures
        parse_i64_spec(after_last(slug_spec(prefix, start_ts as int, timeframe), '-')) == Some(
            start_ts,
        ),
{
    let head = prefix + seq!['-', 'u', 'p', 'd', 'o', 'w', 'n', '-'] + timeframe;
    crate::text::lemma_nonneg_decimal_text_has_no(start_ts as int, '-');
    assert(slug_spec(prefix, start_ts as int, timeframe) =~= head.push('-')
        + crate::text::decimal_text(start_ts as int));
    crate::text::lemma_after_last_concat(head, '-', crate::text::decimal_text(start_ts as int));
    crate::text::lemma_parse_decimal_text(start_ts);
}

// ---------------------------------------------------------------------------
// Market events
// ---------------------------------------------------------------------------

/// The first entry of the event's `markets` array.
pub open spec fn first_market(event: JsonValue) -> Option<JsonValue> {
    match json_get(event, "markets"@) {
        Some(m) => match json_array(m) {
            Some(items) => if items.len() > 0 {
                Some(items[0])
            } else {
                None
            },
            None => None,
        },
        None => None,
    }
}

/// The token listed against the last of the first `n` outcomes named `name`.
pub open spec fn pick_token(outcomes: Seq<Seq<char>>, tokens: Seq<Seq<char>>, name: Seq<char>, n: int) -> Option<Seq<char>>
    decreases n,
{
    if n <= 0 {
        None
    } else if outcomes[n - 1] == name {
        Some(tokens[n - 1])
    } else {
        pick_token(outcomes, tokens, name, n - 1)
    }
}

/// The event's `slug`, or else the market's; it must be a string.
pub open spec fn event_slug(event: JsonValue, raw: JsonValue) -> Option<Seq<char>> {
    let v = match json_get(event, "slug"@) {
        Some(v) => Some(v),
        None => json_get(raw, "slug"@),
    };
    match v {
        Some(x) => json_str(x),
        None => None,
    }
}

/// The market's `eventStartTime`, else the event's `startTime`, else the time
/// at the end of the slug.
pub open spec fn event_start(event: JsonValue, raw: JsonValue, slug: Seq<char>) -> Option<i64> {
    match time_field_spec(json_get(raw, "eventStartTime"@)) {
        Some(t) => Some(t),
        None => match time_field_spec(json_get(event, "startTime"@)) {
            Some(t) => Some(t),
            None => parse_i64_spec(after_last(slug, '-')),
        },
    }
}

/// The market's `endDate`, else the event's.
pub open spec fn event_end(event: JsonValue, raw: JsonValue) -> Option<i64> {
    match time_field_spec(json_get(raw, "endDate"@)) {
        Some(t) => Some(t),
        None => time_field_spec(json_get(event, "endDate"@)),
    }
}

/// A boolean field, or `default` when it is absent or not a boolean.
pub open spec fn bool_or(value: Option<JsonValue>, default: bool) -> bool {
    match value {
        Some(x) => match json_bool(x) {
            Some(b) => b,
            None => default,
        },
        None => default,
    }
}

/// A float field, or `default` when it does not read as a float.
pub open spec fn float_or(value: Option<JsonValue>, default: Binary64) -> Binary64 {
    match lenient_f64(value) {
        Some(f) => f,
        None => default,
    }
}

/// A float field when it reads as a float greater than zero.
pub open spec fn positive_float(value: Option<JsonValue>) -> Option<Binary64> {
    match lenient_f64(value) {
        Some(p) => if p.spec_is_positive() {
            Some(p)
        } else {
            None
        },
        None => None,
    }
}

/// 0.01, the tick size assumed when the market gives none.
pub open spec fn default_tick_size() -> Binary64 {
    Binary64 { bits: 0x3f84_7ae1_47ae_147b }
}

/// 5.0, the minimum order size assumed when the market gives none.
pub open spec fn default_min_order_size() -> Binary64 {
    Binary64 { bits: 0x4014_0000_0000_0000 }
}

/// The event describes a market window: its first market lists as many
/// outcomes as tokens, including an `Up` and a `Down` token, and the event
/// gives a slug, a start time and an end time.
pub open spec fn market_event_parses(event: JsonValue) -> bool {
    match first_market(event) {
        None => false,
        Some(raw) => match (json_get(raw, "outcomes"@), json_get(raw, "clobTokenIds"@)) {
            (Some(o), Some(t)) => match (string_array_spec(o), string_array_spec(t)) {
                (Some(os), Some(ts)) => {
                    &&& os.len() == ts.len()
                    &&& pick_token(os, ts, "Up"@, os.len() as int) is Some
                    &&& pick_token(os, ts, "Down"@, os.len() as int) is Some
                    &&& event_slug(event, raw) matches Some(slug) && event_start(
                        event,
                        raw,
                        slug,
                    ) is Some
                    &&& event_end(event, raw) is Some
                },
                _ => false,
            },
            _ => false,
        },
    }
}

/// The outcome and token lists pair up and name an `Up` and a `Down` token.
pub open spec fn parts_make_window(os: Seq<Seq<char>>, ts: Seq<Seq<char>>) -> bool {
    &&& os.len() == ts.len()
    &&& pick_token(os, ts, "Up"@, os.len() as int) is Some
    &&& pick_token(os, ts, "Down"@, os.len() as int) is Some
}

/// `m` is the window for the asset with symbol `symbol` that the event, its
/// first market `raw`, the outcome and token lists, the slug and the start and
/// end times read from them describe.
pub open spec fn window_fields(
    symbol: Seq<char>,
    event: JsonValue,
    raw: JsonValue,
    os: Seq<Seq<char>>,
    ts: Seq<Seq<char>>,
    slug: Seq<char>,
    start_ts: i64,
    end_ts: i64,
    m: MarketWindow,
) -> bool {
    &&& m.asset@ == uppercase(symbol)
    &&& m.slug@ == slug
    &&& m.event_id@ == lenient_text(json_get(event, "id"@))
    &&& m.market_id@ == lenient_text(json_get(raw, "id"@))
    &&& m.condition_id@ == lenient_text(json_get(raw, "conditionId"@))
    &&& m.start_ts == start_ts
    &&& m.end_ts == end_ts
    &&& Some(m.up_token_id@) == pick_token(os, ts, "Up"@, os.len() as int)
    &&& Some(m.down_token_id@) == pick_token(os, ts, "Down"@, os.len() as int)
    &&& m.tick_size == float_or(json_get(raw, "orderPriceMinTickSize"@), default_tick_size())
    &&& m.min_order_size == float_or(json_get(raw, "orderMinSize"@), default_min_order_size())
    &&& m.neg_risk == bool_or(json_get(raw, "negRisk"@), false)
    &&& m.active == (bool_or(json_get(raw, "active"@), false) && bool_or(
        json_get(event, "active"@),
        true,
    ))
    &&& m.closed == (bool_or(json_get(raw, "closed"@), false) || bool_or(
        json_get(event, "closed"@),
        false,
    ))
    &&& m.accepting_orders == bool_or(json_get(raw, "acceptingOrders"@), false)
    &&& m.price_to_beat == positive_float(json_get(raw, "priceToBeat"@))
}

/// `m` is the window the event describes for the asset with symbol `symbol`.
pub open spec fn market_from_event(symbol: Seq<char>, event: JsonValue, m: MarketWindow) -> bool {
    match first_market(event) {
        None => false,
        Some(raw) => match (json_get(raw, "outcomes"@), json_get(raw, "clobTokenIds"@)) {
            (Some(o), Some(t)) => match (string_array_spec(o), string_array_spec(t)) {
                (Some(os), Some(ts)) => match event_slug(event, raw) {
                    Some(slug) => match (event_start(event, raw, slug), event_end(event, raw)) {
                        (Some(start), Some(end)) => window_fields(
                            symbol,
                            event,
                            raw,
                            os,
                            ts,
                            slug,
                            start,
                            end,
                            m,
                        ),
                        _ => false,
                    },
                    None => false,
                },
                _ => false,
            },
            _ => false,
        },
    }
}

fn bool_field_or(value: Option<&JsonValue>, default: bool) -> (res: bool)
    ensures
        res == bool_or(deref_opt(value), default),
{
    match value {
        Some(v) => match v.as_bool() {
            Some(b) => b,
            None => default,
        },
        None => default,
    }
}

/// The window an event document from the market catalogue describes for
/// `asset`, or `None` when the document does not describe one.
pub fn parse_market_event(asset: &AssetConfig, event: &JsonValue) -> (res: Option<MarketWindow>)
    ensures
        res is Some <==> market_event_parses(*event),
        res matches Some(m) ==> market_from_event(asset.symbol@, *event, m),
{
    let markets = match event.get("markets") {
        Some(m) => m,
        None => {
            return None;
        },
    };
    let items = match markets.as_array() {
        Some(items) => items,
        None => {
            return None;
        },
    };
    if items.len() == 0 {
        return None;
    }
    let raw = &items[0];
    assert(first_market(*event) == Some(*raw));
    let outcomes_value = match raw.get("outcomes") {
        Some(v) => v,
        None => {
            return None;
        },
    };
    let outcomes = match json_string_array(outcomes_value) {
        Some(v) => v,
        None => {
            return None;
        },
    };
    let tokens_value = match raw.get("clobTokenIds") {
        Some(v) => v,
        None => {
            return None;
        },
    };
    let token_ids = match json_string_array(tokens_value) {
        Some(v) => v,
        None => {
            return None;
        },
    };
    let slug_value = match event.get("slug") {
        Some(v) => v,
        None => match raw.get("slug") {
            Some(v) => v,
            None => {
                return None;
            },
        },
    };
    let slug = match slug_value.as_str() {
        Some(s) => s.to_owned(),
        None => {
            return None;
        },
    };
    assert(event_slug(*event, *raw) == Some(slug@));
    let start_ts = match parse_time_to_ts(raw.get("eventStartTime")) {
        Some(t) => t,
        None => match parse_time_to_ts(event.get("startTime")) {
            Some(t) => t,
            None => match start_from_slug(slug.as_str()) {
                Some(t) => t,
                None => {
                    return None;
                },
            },
        },
    };
    let end_ts = match parse_time_to_ts(raw.get("endDate")) {
        Some(t) => t,
        None => match parse_time_to_ts(event.get("endDate")) {
            Some(t) => t,
            None => {
                return None;
            },
        },
    };
    window_from_parts(asset, event, raw, &outcomes, &token_ids, slug, start_ts, end_ts)
}

/// The window for `asset` that an event and its first market `raw` describe,
/// given the outcome and token lists, the slug and the start and end times
/// read from them; `None` unless the lists pair up and name an `Up` and a
/// `Down` token.
pub fn window_from_parts(
    asset: &AssetConfig,
    event: &JsonValue,
    raw: &JsonValue,
    outcomes: &Vec<String>,
    token_ids: &Vec<String>,
    slug: String,
    start_ts: i64,
    end_ts: i64,
) -> (res: Option<MarketWindow>)
    ensures
        res is Some <==> parts_make_window(string_views(outcomes@), string_views(token_ids@)),
        res matches Some(m) ==> window_fields(
            asset.symbol@,
            *event,
            *raw,
            string_views(outcomes@),
            string_views(token_ids@),
            slug@,
            start_ts,
            end_ts,
            m,
        ),
{
    if outcomes.len() != token_ids.len() {
        return None;
    }
    let ghost os = string_views(outcomes@);
    let ghost ts = string_views(token_ids@);
    let mut up_token_id: Option<String> = None;
    let mut down_token_id: Option<String> = None;
    let mut i: usize = 0;
    proof {
        reveal_strlit("Up");
        reveal_strlit("Down");
        assert("Up"@.len() != "Down"@.len());
    }
    while i < outcomes.len()
        invariant
            i <= outcomes.len() == token_ids.len(),
            "Up"@ != "Down"@,
            os == string_views(outcomes@),
            ts == string_views(token_ids@),
            match up_token_id {
                Some(u) => pick_token(os, ts, "Up"@, i as int) == Some(u@),
                None => pick_token(os, ts, "Up"@, i as int) is None,
            },
            match down_token_id {
                Some(d) => pick_token(os, ts, "Down"@, i as int) == Some(d@),
                None => pick_token(os, ts, "Down"@, i as int) is None,
            },
        decreases outcomes.len() - i,
    {
        if str_eq(outcomes[i].as_str(), "Up") {
            up_token_id = Some(token_ids[i].clone());
        } else if str_eq(outcomes[i].as_str(), "Down") {
            down_token_id = Some(token_ids[i].clone());
        }
        i = i + 1;
    }
    let up = match up_token_id {
        Some(u) => u,
        None => {
            return None;
        },
    };
    let down = match down_token_id {
        Some(d) => d,
        None => {
            return None;
        },
    };
    let tick_size = match lenient_float(raw.get("orderPriceMinTickSize")) {
        Some(f) => f,
        None => Binary64::from_bits(0x3f84_7ae1_47ae_147b),
    };
    let min_order_size = match lenient_float(raw.get("orderMinSize")) {
        Some(f) => f,
        None => Binary64::from_bits(0x4014_0000_0000_0000),
    };
    let price_to_beat = match lenient_float(raw.get("priceToBeat")) {
        Some(p) => if p.is_positive() {
            Some(p)
        } else {
            None
        },
        None => None,
    };
    let active = bool_field_or(raw.get("active"), false) && bool_field_or(
        event.get("active"),
        true,
    );
    let closed = bool_field_or(raw.get("closed"), false) || bool_field_or(
        event.get("closed"),
        false,
    );
    let m = MarketWindow {
        asset: to_uppercase(asset.symbol.as_str()),
        slug,
        event_id: lenient_string(event.get("id")),
        market_id: lenient_string(raw.get("id")),
        condition_id: lenient_string(raw.get("conditionId")),
        start_ts,
        end_ts,
        up_token_id: up,
        down_token_id: down,
        tick_size,
        min_order_size,
        neg_risk: bool_field_or(raw.get("negRisk"), false),
        active,
        closed,
        accepting_orders: bool_field_or(raw.get("acceptingOrders"), false),
        price_to_beat,
    };
    Some(m)
}

// ---------------------------------------------------------------------------
// Discovery
// ---------------------------------------------------------------------------

/// The catalogue's base address without trailing slashes.
pub fn normalize_base_url(base_url: &str) -> (res: String)
    ensures
        res@ == trim_end_char(base_url@, '/'),
{
    trim_end_matching(base_url, '/')
}

/// The address of the event with this slug: `{base}/events/slug/{slug}`.
pub fn event_url(base_url: &str, slug: &str) -> (res: String)
    ensures
        res@ == base_url@ + "/events/slug/"@ + slug@,
{
    let mut s = String::new();
    push_str(&mut s, base_url);
    push_str(&mut s, "/events/slug/");
    push_str(&mut s, slug);
    assert(s@ =~= base_url@ + "/events/slug/"@ + slug@);
    s
}

/// The characters of each request's slug.
pub open spec fn request_views(reqs: Seq<(AssetConfig, String)>) -> Seq<(AssetConfig, Seq<char>)> {
    Seq::new(reqs.len(), |i: int| (reqs[i].0, reqs[i].1@))
}

/// The requests for one asset: one per window start, in order.
pub open spec fn asset_requests(asset: AssetConfig, starts: Seq<int>, timeframe: Seq<char>) -> Seq<
    (AssetConfig, Seq<char>),
> {
    Seq::new(
        starts.len(),
        |k: int| (asset, slug_spec(asset.slug_prefix@, starts[k], timeframe)),
    )
}

/// The requests for all assets, asset by asset.
pub open spec fn all_requests(assets: Seq<AssetConfig>, starts: Seq<int>, timeframe: Seq<char>) -> Seq<
    (AssetConfig, Seq<char>),
>
    decreases assets.len(),
{
    if assets.len() == 0 {
        Seq::empty()
    } else {
        all_requests(assets.drop_last(), starts, timeframe) + asset_requests(
            assets.last(),
            starts,
            timeframe,
        )
    }
}

/// A discovery round asks once for each asset and candidate window: request
/// `a * n + k`, with `n` the number of candidate starts, is for asset `a` and
/// the window starting at `starts[k]`.
pub proof fn lemma_request_layout(assets: Seq<AssetConfig>, starts: Seq<int>, timeframe: Seq<char>)
    ensures
        all_requests(assets, starts, timeframe).len() == assets.len() * starts.len(),
        forall|a: int, k: int|
            #![trigger assets[a], starts[k]]
            0 <= a < assets.len() && 0 <= k < starts.len() ==> all_requests(
                assets,
                starts,
                timeframe,
            )[a * starts.len() + k] == (
                assets[a],
                slug_spec(assets[a].slug_prefix@, starts[k], timeframe),
            ),
    decreases assets.len(),
{
    let n = starts.len() as int;
    let m = assets.len() as int;
    if m > 0 {
        let init = assets.drop_last();
        lemma_request_layout(init, starts, timeframe);
        let r = all_requests(assets, starts, timeframe);
        let ri = all_requests(init, starts, timeframe);
        assert(ri.len() == (m - 1) * n);
        assert((m - 1) * n + n == m * n) by (nonlinear_arith);
        assert forall|a: int, k: int|
            #![trigger assets[a], starts[k]]
            0 <= a < m && 0 <= k < n implies r[a * n + k] == (
                assets[a],
                slug_spec(assets[a].slug_prefix@, starts[k], timeframe),
            ) by {
            if a < m - 1 {
                assert(a * n + k < (m - 1) * n) by (nonlinear_arith)
                    requires
                        0 <= a < m - 1,
                        0 <= k < n,
                ;
                assert(0 <= a * n) by (nonlinear_arith)
                    requires
                        0 <= a,
                        0 <= n,
                ;
                assert(init[a] == assets[a]);
                assert(r[a * n + k] == ri[a * n + k]);
            } else {
                assert(a * n == (m - 1) * n);
                assert(r[a * n + k] == asset_requests(assets.last(), starts, timeframe)[k]);
            }
        }
    }
}

/// The market events to ask for: for each asset in turn, the slug of each
/// candidate window around `now_ts`, oldest first.
pub fn window_requests(
    assets: &Vec<AssetConfig>,
    timeframe: &str,
    now_ts: i64,
    lookback: i32,
    lookahead: i32,
) -> (res: Result<Vec<(AssetConfig, String)>, TimeframeError>)
    requires
        candidates_fit(now_ts, timeframe@, lookback, lookahead),
    ensures
        match res {
            Ok(reqs) => timeframe_seconds_spec(timeframe@) matches Some(s) && request_views(reqs@)
                == all_requests(
                assets@,
                candidate_starts_spec(
                    window_floor(now_ts as int, s as int),
                    s as int,
                    lookback as int,
                    lookahead as int,
                ),
                timeframe@,
            ),
            Err(TimeframeError::Unsupported { timeframe: t }) => {
                &&& timeframe_seconds_spec(timeframe@) is None
                &&& t@ == timeframe@
            },
        },
{
    let starts = candidate_window_starts(now_ts, timeframe, lookback, lookahead)?;
    let ghost sv = starts@.map_values(|x: i64| x as int);
    let n = starts.len();
    let mut out: Vec<(AssetConfig, String)> = Vec::new();
    let mut a: usize = 0;
    assert(request_views(out@) =~= all_requests(assets@.subrange(0, 0), sv, timeframe@));
    while a < assets.len()
        invariant
            a <= assets.len(),
            n == starts.len() == sv.len(),
            sv == starts@.map_values(|x: i64| x as int),
            request_views(out@) == all_requests(assets@.subrange(0, a as int), sv, timeframe@),
        decreases assets.len() - a,
    {
        let ghost done = request_views(out@);
        let mut k: usize = 0;
        assert(request_views(out@) =~= done + asset_requests(
            assets@[a as int],
            sv.subrange(0, 0),
            timeframe@,
        ));
        while k < n
            invariant
                a < assets.len(),
                k <= n == starts.len() == sv.len(),
                sv == starts@.map_values(|x: i64| x as int),
                request_views(out@) == done + asset_requests(
                    assets@[a as int],
                    sv.subrange(0, k as int),
                    timeframe@,
                ),
            decreases n - k,
        {
            let slug = slug_for(assets[a].slug_prefix.as_str(), starts[k], timeframe);
            let ghost before = out@;
            let asset = assets[a].clone();
            assert(sv[k as int] == starts@[k as int] as int);
            out.push((asset, slug));
            let ghost item = (assets@[a as int], slug_spec(
                assets@[a as int].slug_prefix@,
                sv[k as int],
                timeframe@,
            ));
            assert(request_views(out@) =~= request_views(before).push(item));
            assert(asset_requests(assets@[a as int], sv.subrange(0, k + 1), timeframe@)
                =~= asset_requests(assets@[a as int], sv.subrange(0, k as int), timeframe@).push(
                item,
            ));
            assert(request_views(out@) =~= done + asset_requests(
                assets@[a as int],
                sv.subrange(0, k + 1),
                timeframe@,
            ));
            k = k + 1;
        }
        assert(sv.subrange(0, n as int) =~= sv);
        assert(assets@.subrange(0, a + 1).drop_last() =~= assets@.subrange(0, a as int));
        assert(assets@.subrange(0, a + 1).last() == assets@[a as int]);
        a = a + 1;
    }
    assert(assets@.subrange(0, assets.len() as int) =~= assets@);
    Ok(out)
}

/// Once a failure is found among a prefix, it stays the first failure.
pub proof fn lemma_first_failure_stable<E>(responses: Seq<Result<Option<JsonValue>, E>>, k: int, m: int)
    requires
        k <= m,
        first_failure(responses, k) is Some,
    ensures
        first_failure(responses, m) == first_failure(responses, k),
    decreases m - k,
{
    if k < m {
        lemma_first_failure_stable(responses, k, m - 1);
    }
}

/// The first failed response among the first `n`, if any.
pub open spec fn first_failure<E>(responses: Seq<Result<Option<JsonValue>, E>>, n: int) -> Option<int>
    decreases n,
{
    if n <= 0 {
        None
    } else {
        match first_failure(responses, n - 1) {
            Some(i) => Some(i),
            None => if responses[n - 1] is Err {
                Some(n - 1)
            } else {
                None
            },
        }
    }
}

/// The positions, among the first `n`, of responses that hold an event
/// describing a market window.
pub open spec fn parsed_positions<E>(responses: Seq<Result<Option<JsonValue>, E>>, n: int) -> Seq<int>
    decreases n,
{
    if n <= 0 {
        Seq::empty()
    } else {
        let p = parsed_positions(responses, n - 1);
        match responses[n - 1] {
            Ok(Some(ev)) => if market_event_parses(ev) {
                p.push(n - 1)
            } else {
                p
            },
            _ => p,
        }
    }
}

/// Turns the catalogue's answers into market windows. The answers pair up with
/// the requests in order; a failed answer fails the whole, a missing event is
/// skipped, and so is an event that describes no window.
pub fn collect_windows<E>(
    requests: &Vec<(AssetConfig, String)>,
    responses: Vec<Result<Option<JsonValue>, E>>,
) -> (res: Result<Vec<MarketWindow>, E>)
    ensures
        ({
            let n = if requests@.len() < responses@.len() {
                requests@.len() as int
            } else {
                responses@.len() as int
            };
            match res {
                Err(e) => first_failure(responses@, n) matches Some(i) && responses@[i] == Err::<
                    Option<JsonValue>,
                    E,
                >(e),
                Ok(ms) => {
                    let pos = parsed_positions(responses@, n);
                    &&& first_failure(responses@, n) is None
                    &&& ms@.len() == pos.len()
                    &&& forall|j: int|
                        0 <= j < pos.len() ==> (responses@[#[trigger] pos[j]] matches Ok(Some(ev))
                            && market_from_event(requests@[pos[j]].0.symbol@, ev, ms@[j]))
                },
            }
        }),
{
    let ghost all = responses@;
    let n: usize = if requests.len() < responses.len() {
        requests.len()
    } else {
        responses.len()
    };
    let mut rest = responses;
    let mut markets: Vec<MarketWindow> = Vec::new();
    let mut i: usize = 0;
    while i < n
        invariant
            i <= n <= requests.len(),
            n <= all.len(),
            rest@ == all.subrange(i as int, all.len() as int),
            all == responses@,
            n == (if requests@.len() < responses@.len() {
                requests@.len() as int
            } else {
                responses@.len() as int
            }),
            first_failure(all, i as int) is None,
            markets@.len() == parsed_positions(all, i as int).len(),
            forall|j: int|
                0 <= j < parsed_positions(all, i as int).len() ==> (all[#[trigger] parsed_positions(
                    all,
                    i as int,
                )[j]] matches Ok(Some(ev)) && market_from_event(
                    requests@[parsed_positions(all, i as int)[j]].0.symbol@,
                    ev,
                    markets@[j],
                )),
            forall|j: int|
                0 <= j < parsed_positions(all, i as int).len() ==> 0 <= #[trigger] parsed_positions(
                    all,
                    i as int,
                )[j] < i,
        decreases n - i,
    {
        let response = rest.remove(0);
        assert(response == all[i as int]);
        assert(rest@ =~= all.subrange(i + 1, all.len() as int));
        let ghost prev = parsed_positions(all, i as int);
        match response {
            Err(e) => {
                assert(all[i as int] == Err::<Option<JsonValue>, E>(e));
                assert(first_failure(all, i + 1) == Some(i as int));
                proof {
                    lemma_first_failure_stable(all, i + 1, n as int);
                }
                return Err(e);
            },
            Ok(None) => {
                assert(parsed_positions(all, i + 1) == prev);
            },
            Ok(Some(event)) => {
                match parse_market_event(&requests[i].0, &event) {
                    Some(m) => {
                        markets.push(m);
                        assert(parsed_positions(all, i + 1) == prev.push(i as int));
                    },
                    None => {
                        assert(parsed_positions(all, i + 1) == prev);
                    },
                }
            },
        }
        i = i + 1;
    }
    Ok(markets)
}

} // verus!
