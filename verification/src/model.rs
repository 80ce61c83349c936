//! The bot's data: price ticks, order book quotes and market windows.
use vstd::prelude::*;

use crate::binary64::Binary64;
use crate::json::JsonValue;
use crate::text::{
    decimal_text,
    i64_to_text,
    lemma_after_last_concat,
    lemma_decimal_text_has_no,
    lemma_decimal_text_injective,
    push_char,
    push_str,
};

verus! {

/// A price observation for an asset from the oracle feed.
#[derive(Debug)]
pub struct PriceTick {
    pub asset: String,
    pub symbol: String,
    pub price: Binary64,
    pub feed_ts_ms: i64,
    pub received_ts_ms: i64,
}

impl Clone for PriceTick {
    fn clone(&self) -> (res: Self)
        ensures
            res == *self,
    {
        PriceTick {
            asset: self.asset.clone(),
            symbol: self.symbol.clone(),
            price: self.price,
            feed_ts_ms: self.feed_ts_ms,
            received_ts_ms: self.received_ts_ms,
        }
    }
}

/// The side of an up/down market.
#[derive(Debug, Clone, Copy, PartialEq, Eq, Structural, Hash)]
pub enum Outcome {
    Up,
    Down,
}

pub open spec fn outcome_name(o: Outcome) -> Seq<char> {
    match o {
        Outcome::Up => seq!['U', 'p'],
        Outcome::Down => seq!['D', 'o', 'w', 'n'],
    }
}

impl Outcome {
    /// `Up` or `Down`, as the outcome is displayed.
    pub fn name(&self) -> (res: String)
        ensures
            res@ == outcome_name(*self),
    {
        let mut s = String::new();
        match self {
            Outcome::Up => {
                push_char(&mut s, 'U');
                push_char(&mut s, 'p');
            },
            Outcome::Down => {
                push_char(&mut s, 'D');
                push_char(&mut s, 'o');
                push_char(&mut s, 'w');
                push_char(&mut s, 'n');
            },
        }
        assert(s@ =~= outcome_name(*self));
        s
    }
}

/// The side a price is on against the opening price: `Up` when it is at least
/// the opening price, `Down` otherwise (a NaN on either side gives `Down`).
pub open spec fn outcome_at(price: Binary64, price_to_beat: Binary64) -> Outcome {
    if price.spec_at_least(price_to_beat) {
        Outcome::Up
    } else {
        Outcome::Down
    }
}

/// The outcome that `price` currently favours against `price_to_beat`.
pub fn outcome_for(price: Binary64, price_to_beat: Binary64) -> (res: Outcome)
    ensures
        res == outcome_at(price, price_to_beat),
{
    if price.at_least(&price_to_beat) {
        Outcome::Up
    } else {
        Outcome::Down
    }
}

/// The best bid and ask of one outcome token.
#[derive(Debug)]
pub struct Quote {
    pub token_id: String,
    pub best_bid: Option<Binary64>,
    pub best_ask: Option<Binary64>,
    pub bid_size: Option<Binary64>,
    pub ask_size: Option<Binary64>,
    pub ts_ms: Option<i64>,
}

impl Clone for Quote {
    fn clone(&self) -> (res: Self)
        ensures
            res == *self,
    {
        Quote {
            token_id: self.token_id.clone(),
            best_bid: self.best_bid,
            best_ask: self.best_ask,
            bid_size: self.bid_size,
            ask_size: self.ask_size,
            ts_ms: self.ts_ms,
        }
    }
}

/// One up/down market: an asset, a time window and its two outcome tokens.
#[derive(Debug)]
pub struct MarketWindow {
    pub asset: String,
    pub slug: String,
    pub event_id: String,
    pub market_id: String,
    pub condition_id: String,
    pub start_ts: i64,
    pub end_ts: i64,
    pub up_token_id: String,
    pub down_token_id: String,
    pub tick_size: Binary64,
    pub min_order_size: Binary64,
    pub neg_risk: bool,
    pub active: bool,
    pub closed: bool,
    pub accepting_orders: bool,
    pub price_to_beat: Option<Binary64>,
}

impl Clone for MarketWindow {
    fn clone(&self) -> (res: Self)
        ensures
            res == *self,
    {
        MarketWindow {
            asset: self.asset.clone(),
            slug: self.slug.clone(),
            event_id: self.event_id.clone(),
            market_id: self.market_id.clone(),
            condition_id: self.condition_id.clone(),
            start_ts: self.start_ts,
            end_ts: self.end_ts,
            up_token_id: self.up_token_id.clone(),
            down_token_id: self.down_token_id.clone(),
            tick_size: self.tick_size,
            min_order_size: self.min_order_size,
            neg_risk: self.neg_risk,
            active: self.active,
            closed: self.closed,
            accepting_orders: self.accepting_orders,
            price_to_beat: self.price_to_beat,
        }
    }
}

/// What the feeds hand to the state: an oracle price tick, or a market data
/// message for the order book.
pub enum Event {
    Tick(PriceTick),
    MarketMessage(JsonValue),
}

/// The key of a market window: `{asset}:{start_ts}`.
pub open spec fn market_key(asset: Seq<char>, start_ts: int) -> Seq<char> {
    asset.push(':') + decimal_text(start_ts)
}

/// The token that pays out on `outcome`.
pub open spec fn token_of(market: MarketWindow, outcome: Outcome) -> Seq<char> {
    match outcome {
        Outcome::Up => market.up_token_id@,
        Outcome::Down => market.down_token_id@,
    }
}

impl MarketWindow {
    /// The key under which the window is tracked: asset and start time.
    pub fn key(&self) -> (res: String)
        ensures
            res@ == market_key(self.asset@, self.start_ts as int),
    {
        let mut s = String::new();
        push_str(&mut s, self.asset.as_str());
        push_char(&mut s, ':');
        let digits = i64_to_text(self.start_ts);
        push_str(&mut s, digits.as_str());
        assert(s@ =~= market_key(self.asset@, self.start_ts as int));
        s
    }

    /// The token id that pays out on `outcome`.
    pub fn token_for(&self, outcome: Outcome) -> (res: &String)
        ensures
            res@ == token_of(*self, outcome),
    {
        match outcome {
            Outcome::Up => &self.up_token_id,
            Outcome::Down => &self.down_token_id,
        }
    }
}

/// Two windows share a key exactly when they share asset and start time.
pub proof fn lemma_market_key_injective(a1: Seq<char>, s1: i64, a2: Seq<char>, s2: i64)
    ensures
        market_key(a1, s1 as int) == market_key(a2, s2 as int) <==> (a1 == a2 && s1 == s2),
{
    if market_key(a1, s1 as int) == market_key(a2, s2 as int) {
        lemma_decimal_text_has_no(s1 as int, ':');
        lemma_decimal_text_has_no(s2 as int, ':');
        lemma_after_last_concat(a1, ':', decimal_text(s1 as int));
        lemma_after_last_concat(a2, ':', decimal_text(s2 as int));
        lemma_decimal_text_injective(s1, s2);
        let k = market_key(a1, s1 as int);
        assert(a1 =~= k.subrange(0, a1.len() as int));
        assert(a2 =~= k.subrange(0, a2.len() as int));
    }
}

} // verus!
