//! The bot's runtime state: latest and recent oracle ticks per asset, the known
//! market windows with their captured opening prices, and the order book.
use std::collections::VecDeque;

use vstd::prelude::*;

use crate::map::{lemma_map_of_entries, lemma_map_of_same_keys, map_of, StrMap};
use crate::binary64::Binary64;
use crate::model::{market_key, outcome_at, outcome_for, token_of, Event, MarketWindow, Outcome, PriceTick, Quote};
use crate::orderbook::{OrderBookState, QuoteView};
use crate::text::{ascending, has_text, sorted_distinct, str_eq, texts_distinct};

verus! {

/// How many recent ticks are kept per asset.
pub const RECENT_TICKS_PER_ASSET: usize = 2000;

/// Integer division rounding toward zero, as Rust's `/` on integers does.
pub open spec fn div_toward_zero(x: int, d: int) -> int {
    if x >= 0 {
        x / d
    } else {
        -((-x) / d)
    }
}

/// The second of the feed timestamp of a tick.
pub open spec fn feed_second(tick: PriceTick) -> int {
    div_toward_zero(tick.feed_ts_ms as int, 1000)
}

/// The tick fixes the market's opening price: same asset, no opening price yet,
/// and the tick's feed second lies within the opening grace period.
pub open spec fn captures(market: MarketWindow, tick: PriceTick, grace: int) -> bool {
    &&& market.asset@ == tick.asset@
    &&& market.price_to_beat is None
    &&& feed_second(tick) >= market.start_ts
    &&& feed_second(tick) <= market.start_ts + grace
}

/// The market after seeing the tick.
pub open spec fn after_tick(market: MarketWindow, tick: PriceTick, grace: int) -> MarketWindow {
    if captures(market, tick, grace) {
        MarketWindow { price_to_beat: Some(tick.price), ..market }
    } else {
        market
    }
}

/// The last `limit` items of `s` (all of `s` when it is shorter).
pub open spec fn keep_last<A>(s: Seq<A>, limit: int) -> Seq<A> {
    if s.len() > limit {
        s.subrange(s.len() - limit, s.len() as int)
    } else {
        s
    }
}

/// The tick is inside `[lo, hi]` in feed milliseconds.
pub open spec fn in_window(tick: PriceTick, lo: int, hi: int) -> bool {
    lo <= tick.feed_ts_ms && tick.feed_ts_ms <= hi
}

/// The first of the ticks with the earliest feed time inside `[lo, hi]`.
pub open spec fn earliest_in(ticks: Seq<PriceTick>, lo: int, hi: int) -> Option<PriceTick>
    decreases ticks.len(),
{
    if ticks.len() == 0 {
        None
    } else {
        let e = earliest_in(ticks.drop_last(), lo, hi);
        let t = ticks.last();
        if in_window(t, lo, hi) && (e matches Some(b) ==> t.feed_ts_ms < b.feed_ts_ms) {
            Some(t)
        } else {
            e
        }
    }
}

/// The tokens of the markets that are not closed.
pub open spec fn live_tokens(markets: Map<Seq<char>, MarketWindow>) -> Set<Seq<char>> {
    Set::new(
        |t: Seq<char>|
            exists|k: Seq<char>|
                #![trigger markets[k]]
                markets.contains_key(k) && !markets[k].closed && (markets[k].up_token_id@ == t
                    || markets[k].down_token_id@ == t),
    )
}

/// The state shared by the bot's loops.
pub struct RuntimeState {
    opening_capture_grace_seconds: i64,
    latest_ticks: StrMap<PriceTick>,
    recent_ticks: StrMap<VecDeque<PriceTick>>,
    markets: StrMap<MarketWindow>,
    orderbook: OrderBookState,
}

/// A copy of the state for readers.
pub struct RuntimeSnapshot {
    pub latest_ticks: StrMap<PriceTick>,
    pub markets: StrMap<MarketWindow>,
    pub orderbook: OrderBookState,
}

impl RuntimeState {
    /// The opening grace period in seconds.
    pub closed spec fn grace(self) -> int {
        self.opening_capture_grace_seconds as int
    }

    /// The latest tick of each asset.
    pub closed spec fn latest(self) -> Map<Seq<char>, PriceTick> {
        self.latest_ticks.view()
    }

    /// The known market windows by key.
    pub closed spec fn market_map(self) -> Map<Seq<char>, MarketWindow> {
        self.markets.view()
    }

    /// The order book.
    pub closed spec fn book(self) -> OrderBookState {
        self.orderbook
    }

    /// The recent ticks of each asset, oldest first.
    pub closed spec fn recent(self) -> Map<Seq<char>, Seq<PriceTick>> {
        Map::new(
            |k: Seq<char>| self.recent_ticks.view().contains_key(k),
            |k: Seq<char>| self.recent_ticks.view()[k]@,
        )
    }

    /// The maps are well formed, ticks and markets sit under their own keys,
    /// and no asset keeps more than `RECENT_TICKS_PER_ASSET` recent ticks.
    pub closed spec fn wf(self) -> bool {
        &&& self.latest_ticks.wf()
        &&& self.recent_ticks.wf()
        &&& self.markets.wf()
        &&& self.orderbook.wf()
        &&& forall|k: Seq<char>| #[trigger]
            self.recent_ticks.view().contains_key(k) ==> self.recent_ticks.view()[k]@.len()
                <= RECENT_TICKS_PER_ASSET
        &&& forall|k: Seq<char>, i: int| #[trigger]
            self.recent_ticks.view().contains_key(k) && 0 <= i < self.recent_ticks.view()[k]@.len()
                ==> (#[trigger] self.recent_ticks.view()[k]@[i]).asset@ == k
        &&& forall|k: Seq<char>| #[trigger]
            self.latest_ticks.view().contains_key(k) ==> self.latest_ticks.view()[k].asset@ == k
        &&& forall|k: Seq<char>| #[trigger]
            self.markets.view().contains_key(k) ==> k == market_key(
                self.markets.view()[k].asset@,
                self.markets.view()[k].start_ts as int,
            )
    }

    /// A state with no ticks, markets or quotes.
    pub fn new(opening_capture_grace_seconds: i64) -> (res: Self)
        ensures
            res.wf(),
            res.grace() == opening_capture_grace_seconds,
            res.latest() == Map::<Seq<char>, PriceTick>::empty(),
            res.recent() == Map::<Seq<char>, Seq<PriceTick>>::empty(),
            res.market_map() == Map::<Seq<char>, MarketWindow>::empty(),
            res.book().view() == Map::<Seq<char>, crate::orderbook::QuoteView>::empty(),
    {
        let res = RuntimeState {
            opening_capture_grace_seconds,
            latest_ticks: StrMap::new(),
            recent_ticks: StrMap::new(),
            markets: StrMap::new(),
            orderbook: OrderBookState::new(),
        };
        assert(res.recent() =~= Map::<Seq<char>, Seq<PriceTick>>::empty());
        res
    }

    /// The latest tick of each asset.
    pub fn latest_ticks(&self) -> (res: &StrMap<PriceTick>)
        requires
            self.wf(),
        ensures
            res.wf(),
            res.view() == self.latest(),
    {
        &self.latest_ticks
    }

    /// The known market windows by key.
    pub fn markets(&self) -> (res: &StrMap<MarketWindow>)
        requires
            self.wf(),
        ensures
            res.wf(),
            res.view() == self.market_map(),
    {
        &self.markets
    }

    /// The order book.
    pub fn orderbook(&self) -> (res: &OrderBookState)
        requires
            self.wf(),
        ensures
            res.wf(),
            *res == self.book(),
    {
        &self.orderbook
    }

    /// Applies a market data message to the order book; nothing else changes.
    pub fn apply_market_message(&mut self, message: &crate::json::JsonValue)
        requires
            old(self).wf(),
        ensures
            final(self).wf(),
            final(self).book().view() == crate::orderbook::apply_message(
                old(self).book().view(),
                *message,
            ),
            final(self).latest() == old(self).latest(),
            final(self).recent() == old(self).recent(),
            final(self).market_map() == old(self).market_map(),
            final(self).grace() == old(self).grace(),
    {
        self.orderbook.update_from_message(message);
    }

    /// A copy of the latest ticks, the markets and the order book.
    pub fn snapshot(&self) -> (res: RuntimeSnapshot)
        requires
            self.wf(),
        ensures
            res.latest_ticks.wf(),
            res.markets.wf(),
            res.orderbook.wf(),
            res.latest_ticks.view() == self.latest(),
            res.markets.view() == self.market_map(),
            res.orderbook.view() == self.book().view(),
    {
        RuntimeSnapshot {
            latest_ticks: self.latest_ticks.duplicate(),
            markets: self.markets.duplicate(),
            orderbook: self.orderbook.duplicate(),
        }
    }
}

/// The recent ticks of an asset, none when it has none.
pub open spec fn recent_of(recent: Map<Seq<char>, Seq<PriceTick>>, asset: Seq<char>) -> Seq<PriceTick> {
    if recent.contains_key(asset) {
        recent[asset]
    } else {
        Seq::empty()
    }
}

/// The markets after seeing the tick.
pub open spec fn markets_after_tick(markets: Map<Seq<char>, MarketWindow>, tick: PriceTick, grace: int) -> Map<Seq<char>, MarketWindow> {
    Map::new(|k: Seq<char>| markets.contains_key(k), |k: Seq<char>| after_tick(markets[k], tick, grace))
}

/// Checking the tick against a market's opening grace period stays within `i64`.
pub open spec fn tick_fits(markets: Map<Seq<char>, MarketWindow>, tick: PriceTick, grace: int) -> bool {
    forall|k: Seq<char>| #[trigger]
        markets.contains_key(k) ==> ({
            let m = markets[k];
            m.asset@ == tick.asset@ && m.price_to_beat is None && feed_second(tick) >= m.start_ts
                ==> i64::MIN <= m.start_ts + grace <= i64::MAX
        })
}

impl RuntimeState {
    /// Records a tick: it becomes the asset's latest tick, joins the asset's
    /// recent ticks (of which the last `RECENT_TICKS_PER_ASSET` are kept), and
    /// fixes the opening price of each market of the asset that has none yet
    /// and whose opening grace period holds the tick's feed second.
    pub fn apply_tick(&mut self, tick: PriceTick)
        requires
            old(self).wf(),
            tick_fits(old(self).market_map(), tick, old(self).grace()),
        ensures
            final(self).wf(),
            final(self).latest() == old(self).latest().insert(tick.asset@, tick),
            final(self).recent() == old(self).recent().insert(
                tick.asset@,
                keep_last(
                    recent_of(old(self).recent(), tick.asset@).push(tick),
                    RECENT_TICKS_PER_ASSET as int,
                ),
            ),
            final(self).market_map() == markets_after_tick(
                old(self).market_map(),
                tick,
                old(self).grace(),
            ),
            final(self).book() == old(self).book(),
            final(self).grace() == old(self).grace(),
    {
        let ghost asset = tick.asset@;
        let ghost old_recent = self.recent();
        // Recent ticks.
        match self.recent_ticks.index_of(tick.asset.as_str()) {
            Some(i) => {
                proof {
                    lemma_map_of_entries(self.recent_ticks.pairs());
                }
                let mut ticks = self.recent_ticks.replace_value_at(i, VecDeque::new());
                assert(ticks@ == recent_of(old_recent, asset));
                ticks.push_back(tick.clone());
                let ghost pushed = ticks@;
                assert(old_recent.contains_key(asset));
                assert(pushed.len() <= RECENT_TICKS_PER_ASSET + 1);
                assert(pushed.subrange(0, pushed.len() as int) =~= pushed);
                while ticks.len() > RECENT_TICKS_PER_ASSET
                    invariant
                        pushed.len() <= RECENT_TICKS_PER_ASSET + 1,
                        ticks@.len() <= pushed.len(),
                        ticks@.len() < pushed.len() ==> ticks@.len() >= RECENT_TICKS_PER_ASSET,
                        ticks@ == pushed.subrange(pushed.len() - ticks@.len(), pushed.len() as int),
                    decreases ticks@.len(),
                {
                    let ghost before = ticks@;
                    ticks.pop_front();
                    assert(ticks@ =~= pushed.subrange(pushed.len() - ticks@.len(), pushed.len() as int));
                }
                assert(ticks@ =~= keep_last(pushed, RECENT_TICKS_PER_ASSET as int)) by {
                    if pushed.len() <= RECENT_TICKS_PER_ASSET {
                        assert(pushed.subrange(0, pushed.len() as int) =~= pushed);
                    }
                }
                self.recent_ticks.set_value_at(i, ticks);
            },
            None => {
                proof {
                    lemma_map_of_entries(self.recent_ticks.pairs());
                }
                let mut ticks: VecDeque<PriceTick> = VecDeque::new();
                ticks.push_back(tick.clone());
                assert(ticks@ =~= keep_last(
                    recent_of(old_recent, asset).push(tick),
                    RECENT_TICKS_PER_ASSET as int,
                ));
                self.recent_ticks.insert(tick.asset.clone(), ticks);
            },
        }
        assert(self.recent() =~= old_recent.insert(
            asset,
            keep_last(recent_of(old_recent, asset).push(tick), RECENT_TICKS_PER_ASSET as int),
        ));
        // Latest tick.
        self.latest_ticks.insert(tick.asset.clone(), tick.clone());
        // Opening prices.
        let ghost lt = self.latest_ticks;
        let ghost rt = self.recent_ticks;
        let ghost ob = self.orderbook;
        assert(self.latest_ticks.wf() && self.recent_ticks.wf() && self.orderbook.wf());
        let ghost p0 = self.markets.pairs();
        let ghost m0 = self.markets.view();
        let ghost grace = self.opening_capture_grace_seconds as int;
        proof {
            lemma_map_of_entries(p0);
        }
        let mut i: usize = 0;
        while i < self.markets.len()
            invariant
                self.markets.wf(),
                self.latest_ticks == lt,
                self.recent_ticks == rt,
                self.orderbook == ob,
                self.markets.pairs().len() == p0.len(),
                m0 == map_of(p0),
                crate::map::keys_distinct(p0),
                grace == self.opening_capture_grace_seconds,
                tick_fits(m0, tick, grace),
                forall|j: int| 0 <= j < p0.len() ==> m0.contains_key(#[trigger] p0[j].0) && m0[p0[j].0] == p0[j].1,
                forall|j: int|
                    0 <= j < p0.len() ==> (#[trigger] self.markets.pairs()[j]).0 == p0[j].0,
                forall|j: int|
                    0 <= j < i ==> (#[trigger] self.markets.pairs()[j]).1 == after_tick(
                        p0[j].1,
                        tick,
                        grace,
                    ),
                forall|j: int| i <= j < p0.len() ==> (#[trigger] self.markets.pairs()[j]).1 == p0[j].1,
            decreases p0.len() - i,
        {
            let m = self.markets.value_at(i);
            assert(m0.contains_key(p0[i as int].0));
            if str_eq(m.asset.as_str(), tick.asset.as_str()) && m.price_to_beat.is_none() {
                let feed_ts = tick.feed_ts_ms / 1000;
                if feed_ts >= m.start_ts && feed_ts <= m.start_ts + self.opening_capture_grace_seconds {
                    let mut updated = m.clone();
                    updated.price_to_beat = Some(tick.price);
                    assert(updated == after_tick(p0[i as int].1, tick, grace));
                    self.markets.set_value_at(i, updated);
                } else {
                    assert(after_tick(p0[i as int].1, tick, grace) == p0[i as int].1);
                }
            } else {
                assert(after_tick(p0[i as int].1, tick, grace) == p0[i as int].1);
            }
            i = i + 1;
        }
        proof {
            let q = self.markets.pairs();
            lemma_map_of_same_keys(p0, q);
            let want = markets_after_tick(m0, tick, grace);
            assert forall|k: Seq<char>| #[trigger] map_of(q).contains_key(k) implies map_of(q)[k] == want[k] by {
                let j = choose|j: int| 0 <= j < p0.len() && p0[j].0 == k;
                assert(map_of(q)[p0[j].0] == q[j].1);
            }
            assert(map_of(q) =~= want);
        }
    }

    /// Applies an event from the feeds: a tick as `apply_tick` records it, a
    /// market data message as the order book takes it.
    pub fn apply_event(&mut self, event: Event)
        requires
            old(self).wf(),
            event matches Event::Tick(t) ==> tick_fits(old(self).market_map(), t, old(self).grace()),
        ensures
            final(self).wf(),
            final(self).grace() == old(self).grace(),
            match event {
                Event::Tick(tick) => {
                    &&& final(self).latest() == old(self).latest().insert(tick.asset@, tick)
                    &&& final(self).recent() == old(self).recent().insert(
                        tick.asset@,
                        keep_last(
                            recent_of(old(self).recent(), tick.asset@).push(tick),
                            RECENT_TICKS_PER_ASSET as int,
                        ),
                    )
                    &&& final(self).market_map() == markets_after_tick(
                        old(self).market_map(),
                        tick,
                        old(self).grace(),
                    )
                    &&& final(self).book() == old(self).book()
                },
                Event::MarketMessage(message) => {
                    &&& final(self).book().view() == crate::orderbook::apply_message(
                        old(self).book().view(),
                        message,
                    )
                    &&& final(self).latest() == old(self).latest()
                    &&& final(self).recent() == old(self).recent()
                    &&& final(self).market_map() == old(self).market_map()
                },
            },
    {
        match event {
            Event::Tick(tick) => self.apply_tick(tick),
            Event::MarketMessage(message) => self.apply_market_message(&message),
        }
    }

    /// The opening price a window would take from the recent ticks of its
    /// asset: the price of the earliest tick within its opening grace period.
    pub open spec fn backfill(self, market: MarketWindow) -> Option<Binary64> {
        if self.recent().contains_key(market.asset@) {
            match earliest_in(
                self.recent()[market.asset@],
                market.start_ts * 1000,
                (market.start_ts + self.grace()) * 1000,
            ) {
                Some(t) => Some(t.price),
                None => None,
            }
        } else {
            None
        }
    }

    /// The opening price a window keeps when it is stored: its own, else the
    /// one already recorded under its key.
    pub open spec fn carried_price(self, market: MarketWindow) -> Option<Binary64> {
        let key = market_key(market.asset@, market.start_ts as int);
        if market.price_to_beat is None && self.market_map().contains_key(key) {
            self.market_map()[key].price_to_beat
        } else {
            market.price_to_beat
        }
    }

    /// The opening price a window has once stored.
    pub open spec fn stored_price(self, market: MarketWindow) -> Option<Binary64> {
        if self.carried_price(market) is None {
            self.backfill(market)
        } else {
            self.carried_price(market)
        }
    }

    /// The grace period arithmetic of a backfill stays within `i64`.
    pub open spec fn backfill_fits(self, market: MarketWindow) -> bool {
        self.carried_price(market) is None ==> {
            &&& i64::MIN <= market.start_ts * 1000 <= i64::MAX
            &&& i64::MIN <= market.start_ts + self.grace() <= i64::MAX
            &&& i64::MIN <= (market.start_ts + self.grace()) * 1000 <= i64::MAX
        }
    }

    /// Stores a market window under its key. A window without an opening price
    /// keeps the one recorded for its key before, or else takes it from the
    /// earliest recent tick of its asset within its opening grace period.
    pub fn upsert_market(&mut self, market: MarketWindow)
        requires
            old(self).wf(),
            old(self).backfill_fits(market),
        ensures
            final(self).wf(),
            final(self).market_map() == old(self).market_map().insert(
                market_key(market.asset@, market.start_ts as int),
                MarketWindow { price_to_beat: old(self).stored_price(market), ..market },
            ),
            final(self).latest() == old(self).latest(),
            final(self).recent() == old(self).recent(),
            final(self).book() == old(self).book(),
            final(self).grace() == old(self).grace(),
    {
        let key = market.key();
        let mut market = market;
        match self.markets.get(key.as_str()) {
            Some(prior) => {
                if market.price_to_beat.is_none() {
                    market.price_to_beat = prior.price_to_beat;
                }
            },
            None => {},
        }
        if market.price_to_beat.is_none() {
            self.try_backfill_price_to_beat(&mut market);
        }
        self.markets.insert(key, market);
    }

    fn try_backfill_price_to_beat(&self, market: &mut MarketWindow)
        requires
            self.wf(),
            i64::MIN <= old(market).start_ts * 1000 <= i64::MAX,
            i64::MIN <= old(market).start_ts + self.grace() <= i64::MAX,
            i64::MIN <= (old(market).start_ts + self.grace()) * 1000 <= i64::MAX,
        ensures
            *final(market) == (if self.recent().contains_key(old(market).asset@) {
                MarketWindow { price_to_beat: self.backfill(*old(market)), ..*old(market) }
            } else {
                *old(market)
            }),
    {
        let start_ms = market.start_ts * 1000;
        let end_ms = (market.start_ts + self.opening_capture_grace_seconds) * 1000;
        let ticks = match self.recent_ticks.get(market.asset.as_str()) {
            Some(t) => t,
            None => {
                return;
            },
        };
        let mut best: Option<(i64, Binary64)> = None;
        let mut i: usize = 0;
        while i < ticks.len()
            invariant
                i <= ticks@.len(),
                match earliest_in(ticks@.subrange(0, i as int), start_ms as int, end_ms as int) {
                    Some(t) => best == Some((t.feed_ts_ms, t.price)),
                    None => best is None,
                },
            decreases ticks@.len() - i,
        {
            assert(ticks@.subrange(0, i + 1).drop_last() =~= ticks@.subrange(0, i as int));
            assert(ticks@.subrange(0, i + 1).last() == ticks@[i as int]);
            let t = &ticks[i];
            if t.feed_ts_ms >= start_ms && t.feed_ts_ms <= end_ms {
                let earlier = match best {
                    None => true,
                    Some((feed, _)) => t.feed_ts_ms < feed,
                };
                if earlier {
                    best = Some((t.feed_ts_ms, t.price));
                }
            }
            i = i + 1;
        }
        assert(ticks@.subrange(0, ticks@.len() as int) =~= ticks@);
        market.price_to_beat = match best {
            Some((_, price)) => Some(price),
            None => None,
        };
    }

    /// The token ids of all markets that are not closed, each once, in
    /// ascending order.
    pub fn live_token_ids(&self) -> (res: Vec<String>)
        requires
            self.wf(),
        ensures
            ascending(res@),
            texts_distinct(res@),
            forall|t: Seq<char>|
                #![trigger live_tokens(self.market_map()).contains(t)]
                #![trigger has_text(res@, t)]
                live_tokens(self.market_map()).contains(t) <==> has_text(res@, t),
    {
        let ghost p = self.markets.pairs();
        let ghost mm = self.markets.view();
        proof {
            lemma_map_of_entries(p);
        }
        let mut out: Vec<String> = Vec::new();
        let mut i: usize = 0;
        while i < self.markets.len()
            invariant
                i <= p.len() == self.markets.pairs().len(),
                self.markets.wf(),
                p == self.markets.pairs(),
                mm == self.markets.view(),
                texts_distinct(out@),
                forall|t: Seq<char>| #[trigger] has_text(out@, t) <==> listed_live(p, i as int, t),
            decreases p.len() - i,
        {
            let m = self.markets.value_at(i);
            let ghost before = out@;
            if !m.closed {
                push_unique(&mut out, &m.up_token_id);
                push_unique(&mut out, &m.down_token_id);
            }
            proof {
                assert forall|t: Seq<char>| #[trigger]
                    has_text(out@, t) <==> listed_live(p, i + 1, t) by {
                    if listed_live(p, i + 1, t) {
                        let j = choose|j: int|
                            0 <= j < i + 1 && live_token_at(p[j].1, t);
                        if j < i {
                            assert(listed_live(p, i as int, t));
                            assert(has_text(before, t));
                        }
                    }
                    if listed_live(p, i as int, t) {
                        let j = choose|j: int| 0 <= j < i && live_token_at(p[j].1, t);
                        assert(0 <= j < i + 1 && live_token_at(p[j].1, t));
                    }
                    if has_text(out@, t) && !has_text(before, t) {
                        assert(live_token_at(p[i as int].1, t));
                    }
                }
            }
            i = i + 1;
        }
        proof {
            assert forall|t: Seq<char>|
                #![trigger live_tokens(mm).contains(t)]
                #![trigger has_text(out@, t)]
                live_tokens(mm).contains(t) <==> has_text(out@, t) by {
                if live_tokens(mm).contains(t) {
                    let key = choose|key: Seq<char>|
                        #![trigger mm[key]]
                        mm.contains_key(key) && !mm[key].closed && (mm[key].up_token_id@ == t
                            || mm[key].down_token_id@ == t);
                    let j = choose|j: int| 0 <= j < p.len() && p[j].0 == key;
                    assert(mm.contains_key(p[j].0) && mm[p[j].0] == p[j].1);
                    assert(live_token_at(p[j].1, t));
                }
                if listed_live(p, p.len() as int, t) {
                    let j = choose|j: int| 0 <= j < p.len() && live_token_at(p[j].1, t);
                    assert(0 <= j < p.len());
                    lemma_map_of_entries(p);
                    assert(map_of(p).contains_key(p[j].0));
                    assert(map_of(p)[p[j].0] == p[j].1);
                    assert(mm[p[j].0] == p[j].1);
                }
            }
        }
        sorted_distinct(&out)
    }
}

/// `t` is a token of the market and the market is not closed.
pub open spec fn live_token_at(m: MarketWindow, t: Seq<char>) -> bool {
    !m.closed && (m.up_token_id@ == t || m.down_token_id@ == t)
}

/// `t` is a live token of one of the first `n` entries.
pub open spec fn listed_live(p: Seq<(Seq<char>, MarketWindow)>, n: int, t: Seq<char>) -> bool {
    exists|j: int| 0 <= j < n && #[trigger] live_token_at(p[j].1, t)
}

/// Appends a copy of `s` unless an equal string is already there.
fn push_unique(v: &mut Vec<String>, s: &String)
    requires
        texts_distinct(old(v)@),
    ensures
        texts_distinct(final(v)@),
        forall|t: Seq<char>| #[trigger] has_text(final(v)@, t) <==> (has_text(old(v)@, t) || t == s@),
{
    let mut i: usize = 0;
    while i < v.len()
        invariant
            i <= v.len(),
            v@ == old(v)@,
            texts_distinct(old(v)@),
            forall|k: int| 0 <= k < i ==> v@[k]@ != s@,
        decreases v.len() - i,
    {
        if str_eq(v[i].as_str(), s.as_str()) {
            assert(has_text(v@, s@));
            return;
        }
        i = i + 1;
    }
    v.push(s.clone());
    proof {
        assert forall|t: Seq<char>| #[trigger] has_text(v@, t) <==> (has_text(old(v)@, t) || t == s@) by {
            if has_text(v@, t) {
                let k = choose|k: int| 0 <= k < v@.len() && #[trigger] v@[k]@ == t;
                if k < old(v)@.len() {
                    assert(old(v)@[k]@ == t);
                }
            }
            if has_text(old(v)@, t) {
                let k = choose|k: int| 0 <= k < old(v)@.len() && #[trigger] old(v)@[k]@ == t;
                assert(v@[k]@ == t);
            }
            if t == s@ {
                assert(v@[v@.len() - 1]@ == t);
            }
        }
    }
}

/// What the signal engine weighs for one market: the market, its asset's latest
/// tick, the outcome the tick favours and that outcome's quote.
pub struct SignalInput {
    pub market: MarketWindow,
    pub tick: PriceTick,
    pub outcome: Outcome,
    pub quote: Quote,
}

impl SignalInput {
    pub open spec fn parts(self) -> (MarketWindow, PriceTick, Outcome, QuoteView) {
        (self.market, self.tick, self.outcome, self.quote@)
    }
}

/// The signal input of market `m`, when there is one: its asset has a latest
/// tick, it has an opening price, and the book quotes the token of the outcome
/// the tick favours against that price.
pub open spec fn input_for(
    latest: Map<Seq<char>, PriceTick>,
    book: Map<Seq<char>, QuoteView>,
    m: MarketWindow,
) -> Option<(MarketWindow, PriceTick, Outcome, QuoteView)> {
    if latest.contains_key(m.asset@) {
        match m.price_to_beat {
            Some(p) => {
                let tick = latest[m.asset@];
                let outcome = outcome_at(tick.price, p);
                if book.contains_key(token_of(m, outcome)) {
                    Some((m, tick, outcome, book[token_of(m, outcome)]))
                } else {
                    None
                }
            },
            None => None,
        }
    } else {
        None
    }
}

/// The checks of a signal evaluation that need no arithmetic: the market has
/// an opening price, is active, open and accepting orders, the quote has an
/// ask, and the quote is for the token of the outcome the tick favours.
pub open spec fn signal_eligible_spec(m: MarketWindow, tick: PriceTick, q: QuoteView) -> bool {
    &&& m.price_to_beat is Some
    &&& !m.closed
    &&& m.active
    &&& m.accepting_orders
    &&& q.best_ask is Some
    &&& q.token_id == token_of(m, outcome_at(tick.price, m.price_to_beat.unwrap()))
}

/// Whether a market, tick and quote pass the checks of a signal evaluation
/// that need no arithmetic.
pub fn signal_eligible(market: &MarketWindow, tick: &PriceTick, quote: &Quote) -> (res: bool)
    ensures
        res == signal_eligible_spec(*market, *tick, quote@),
{
    let p = match market.price_to_beat {
        Some(p) => p,
        None => {
            return false;
        },
    };
    if market.closed || !market.active || !market.accepting_orders || quote.best_ask.is_none() {
        return false;
    }
    let outcome = outcome_for(tick.price, p);
    str_eq(quote.token_id.as_str(), market.token_for(outcome).as_str())
}

/// The markets of the entries, in order.
pub open spec fn entry_values(p: Seq<(Seq<char>, MarketWindow)>) -> Seq<MarketWindow> {
    p.map_values(|e: (Seq<char>, MarketWindow)| e.1)
}

/// The signal inputs of the first `n` markets, in order; markets without one
/// are skipped.
pub open spec fn inputs_of(
    markets: Seq<MarketWindow>,
    latest: Map<Seq<char>, PriceTick>,
    book: Map<Seq<char>, QuoteView>,
    n: int,
) -> Seq<(MarketWindow, PriceTick, Outcome, QuoteView)>
    decreases n,
{
    if n <= 0 {
        Seq::empty()
    } else {
        let p = inputs_of(markets, latest, book, n - 1);
        match input_for(latest, book, markets[n - 1]) {
            Some(x) => p.push(x),
            None => p,
        }
    }
}

impl RuntimeSnapshot {
    /// The signal inputs of the snapshot's markets, in the order the markets
    /// are stored.
    pub fn signal_inputs(&self) -> (res: Vec<SignalInput>)
        requires
            self.latest_ticks.wf(),
            self.markets.wf(),
            self.orderbook.wf(),
        ensures
            res@.map_values(|x: SignalInput| x.parts()) == inputs_of(
                entry_values(self.markets.pairs()),
                self.latest_ticks.view(),
                self.orderbook.view(),
                self.markets.pairs().len() as int,
            ),
    {
        let ghost ms = entry_values(self.markets.pairs());
        let ghost latest = self.latest_ticks.view();
        let ghost book = self.orderbook.view();
        let mut out: Vec<SignalInput> = Vec::new();
        let n = self.markets.len();
        let mut i: usize = 0;
        while i < n
            invariant
                i <= n == self.markets.pairs().len() == ms.len(),
                ms == entry_values(self.markets.pairs()),
                latest == self.latest_ticks.view(),
                book == self.orderbook.view(),
                self.latest_ticks.wf(),
                self.orderbook.wf(),
                out@.map_values(|x: SignalInput| x.parts()) == inputs_of(ms, latest, book, i as int),
            decreases n - i,
        {
            let m = self.markets.value_at(i);
            assert(*m == ms[i as int]);
            let ghost before = out@.map_values(|x: SignalInput| x.parts());
            match self.latest_ticks.get(m.asset.as_str()) {
                Some(tick) => match m.price_to_beat {
                    Some(p) => {
                        let outcome = outcome_for(tick.price, p);
                        match self.orderbook.quote(m.token_for(outcome).as_str()) {
                            Some(q) => {
                                let input = SignalInput {
                                    market: m.clone(),
                                    tick: tick.clone(),
                                    outcome,
                                    quote: q.clone(),
                                };
                                out.push(input);
                                assert(out@.map_values(|x: SignalInput| x.parts()) =~= before.push(
                                    input.parts(),
                                ));
                            },
                            None => {},
                        }
                    },
                    None => {},
                },
                None => {},
            }
            i = i + 1;
        }
        out
    }
}

/// An input is among the first `n` exactly when one of the first `n` markets gives it.
proof fn lemma_inputs_of_contains(
    markets: Seq<MarketWindow>,
    latest: Map<Seq<char>, PriceTick>,
    book: Map<Seq<char>, QuoteView>,
    n: int,
    x: (MarketWindow, PriceTick, Outcome, QuoteView),
)
    requires
        0 <= n <= markets.len(),
    ensures
        inputs_of(markets, latest, book, n).contains(x) <==> exists|j: int|
            0 <= j < n && input_for(latest, book, #[trigger] markets[j]) == Some(x),
    decreases n,
{
    if n > 0 {
        lemma_inputs_of_contains(markets, latest, book, n - 1, x);
        let p = inputs_of(markets, latest, book, n - 1);
        if inputs_of(markets, latest, book, n).contains(x) {
            if input_for(latest, book, markets[n - 1]) == Some(x) {
            } else {
                if let Some(y) = input_for(latest, book, markets[n - 1]) {
                    let i = choose|i: int| 0 <= i < p.push(y).len() && p.push(y)[i] == x;
                    assert(p[i] == x);
                }
                assert(p.contains(x));
            }
        }
        if exists|j: int| 0 <= j < n && input_for(latest, book, #[trigger] markets[j]) == Some(x) {
            let j = choose|j: int| 0 <= j < n && input_for(latest, book, #[trigger] markets[j]) == Some(x);
            if j == n - 1 {
                assert(inputs_of(markets, latest, book, n).last() == x);
            } else {
                let i = choose|i: int| 0 <= i < p.len() && p[i] == x;
                if let Some(y) = input_for(latest, book, markets[n - 1]) {
                    assert(p.push(y)[i] == x);
                }
            }
        }
    }
}

/// The signal inputs of stored markets leave none out and add none: every
/// stored market that has an input is weighed, and whatever is weighed is the
/// input of a stored market.
pub proof fn lemma_signal_inputs_cover(
    p: Seq<(Seq<char>, MarketWindow)>,
    latest: Map<Seq<char>, PriceTick>,
    book: Map<Seq<char>, QuoteView>,
)
    requires
        crate::map::keys_distinct(p),
    ensures
        forall|k: Seq<char>|
            #[trigger] map_of(p).contains_key(k) ==> (input_for(latest, book, map_of(p)[k]) matches Some(
                x,
            ) ==> inputs_of(entry_values(p), latest, book, p.len() as int).contains(x)),
        forall|x: (MarketWindow, PriceTick, Outcome, QuoteView)|
            #[trigger] inputs_of(entry_values(p), latest, book, p.len() as int).contains(x)
                ==> exists|k: Seq<char>|
                map_of(p).contains_key(k) && input_for(latest, book, #[trigger] map_of(p)[k]) == Some(x),
{
    let ms = entry_values(p);
    lemma_map_of_entries(p);
    assert forall|k: Seq<char>| #[trigger] map_of(p).contains_key(k) implies (input_for(
        latest,
        book,
        map_of(p)[k],
    ) matches Some(x) ==> inputs_of(ms, latest, book, p.len() as int).contains(x)) by {
        if let Some(x) = input_for(latest, book, map_of(p)[k]) {
            let j = choose|j: int| 0 <= j < p.len() && p[j].0 == k;
            assert(map_of(p)[p[j].0] == p[j].1);
            assert(ms[j] == p[j].1);
            lemma_inputs_of_contains(ms, latest, book, p.len() as int, x);
        }
    }
    assert forall|x: (MarketWindow, PriceTick, Outcome, QuoteView)|
        #[trigger] inputs_of(ms, latest, book, p.len() as int).contains(x) implies exists|k: Seq<char>|
        map_of(p).contains_key(k) && input_for(latest, book, #[trigger] map_of(p)[k]) == Some(x) by {
        lemma_inputs_of_contains(ms, latest, book, p.len() as int, x);
        let j = choose|j: int| 0 <= j < p.len() && input_for(latest, book, #[trigger] ms[j]) == Some(x);
        assert(ms[j] == p[j].1);
        assert(map_of(p).contains_key(p[j].0) && map_of(p)[p[j].0] == p[j].1);
    }
}

impl Default for RuntimeSnapshot {
    /// An empty snapshot.
    fn default() -> (res: Self)
        ensures
            res.latest_ticks.wf(),
            res.markets.wf(),
            res.orderbook.wf(),
            res.latest_ticks.view() == Map::<Seq<char>, PriceTick>::empty(),
            res.markets.view() == Map::<Seq<char>, MarketWindow>::empty(),
            res.orderbook.view() == Map::<Seq<char>, crate::orderbook::QuoteView>::empty(),
    {
        RuntimeSnapshot {
            latest_ticks: StrMap::new(),
            markets: StrMap::new(),
            orderbook: OrderBookState::new(),
        }
    }
}

/// In every state, each latest tick and each recent tick sits under its own
/// asset, and each market window under the key of its asset and start time.
pub proof fn lemma_entries_under_own_keys(state: RuntimeState)
    requires
        state.wf(),
    ensures
        forall|k: Seq<char>| #[trigger] state.latest().contains_key(k) ==> state.latest()[k].asset@ == k,
        forall|k: Seq<char>, i: int|
            #[trigger] state.recent().contains_key(k) && 0 <= i < state.recent()[k].len()
                ==> (#[trigger] state.recent()[k][i]).asset@ == k,
        forall|k: Seq<char>| #[trigger]
            state.market_map().contains_key(k) ==> k == market_key(
                state.market_map()[k].asset@,
                state.market_map()[k].start_ts as int,
            ),
{
}

/// A tick never changes an opening price once a market has one; it sets the
/// opening price only of a market of its own asset, to its own price.
pub proof fn lemma_opening_price_set_once(markets: Map<Seq<char>, MarketWindow>, tick: PriceTick, grace: int, k: Seq<char>)
    requires
        markets.contains_key(k),
    ensures
        markets[k].price_to_beat is Some ==> markets_after_tick(markets, tick, grace)[k]
            == markets[k],
        markets_after_tick(markets, tick, grace)[k] != markets[k] ==> {
            &&& markets[k].asset@ == tick.asset@
            &&& markets_after_tick(markets, tick, grace)[k].price_to_beat == Some(tick.price)
            &&& markets[k].start_ts <= feed_second(tick) <= markets[k].start_ts + grace
        },
        markets_after_tick(markets, tick, grace).dom() == markets.dom(),
{
    assert(markets_after_tick(markets, tick, grace).dom() =~= markets.dom());
}

/// The recent ticks kept for an asset are at most `limit`, end with the newest
/// tick, and are the newest part of what was seen.
pub proof fn lemma_recent_ticks_window(s: Seq<PriceTick>, t: PriceTick, limit: int)
    requires
        limit > 0,
    ensures
        keep_last(s.push(t), limit).len() <= limit,
        keep_last(s.push(t), limit).last() == t,
        s.push(t).len() <= limit ==> keep_last(s.push(t), limit) == s.push(t),
        keep_last(s.push(t), limit) == s.push(t).subrange(
            s.push(t).len() - keep_last(s.push(t), limit).len(),
            s.push(t).len() as int,
        ),
{
    let u = s.push(t);
    if u.len() <= limit {
        assert(u.subrange(0, u.len() as int) =~= u);
    }
}

/// The ticks of `asset` among `ticks`, in order.
pub open spec fn ticks_of(ticks: Seq<PriceTick>, asset: Seq<char>) -> Seq<PriceTick>
    decreases ticks.len(),
{
    if ticks.len() == 0 {
        Seq::empty()
    } else {
        let rest = ticks_of(ticks.drop_last(), asset);
        if ticks.last().asset@ == asset {
            rest.push(ticks.last())
        } else {
            rest
        }
    }
}

/// The recent ticks per asset after a run of ticks, each recorded as
/// `apply_tick` records it.
pub open spec fn recent_after(recent: Map<Seq<char>, Seq<PriceTick>>, ticks: Seq<PriceTick>) -> Map<Seq<char>, Seq<PriceTick>>
    decreases ticks.len(),
{
    if ticks.len() == 0 {
        recent
    } else {
        let r = recent_after(recent, ticks.drop_last());
        let t = ticks.last();
        r.insert(t.asset@, keep_last(recent_of(r, t.asset@).push(t), RECENT_TICKS_PER_ASSET as int))
    }
}

/// The latest tick per asset after a run of ticks.
pub open spec fn latest_after(latest: Map<Seq<char>, PriceTick>, ticks: Seq<PriceTick>) -> Map<Seq<char>, PriceTick>
    decreases ticks.len(),
{
    if ticks.len() == 0 {
        latest
    } else {
        latest_after(latest, ticks.drop_last()).insert(ticks.last().asset@, ticks.last())
    }
}

/// Keeping the last `limit` items before appending one more changes nothing
/// about the last `limit` items after it.
pub proof fn lemma_keep_last_push<A>(s: Seq<A>, t: A, limit: int)
    requires
        limit > 0,
    ensures
        keep_last(keep_last(s, limit).push(t), limit) == keep_last(s.push(t), limit),
{
    if s.len() > limit {
        let k = keep_last(s, limit);
        assert(keep_last(k.push(t), limit) =~= keep_last(s.push(t), limit));
    }
}

/// Over any run of ticks recorded one after another by `apply_tick`, from
/// recent ticks of at most `RECENT_TICKS_PER_ASSET` per asset: each asset keeps
/// the last `RECENT_TICKS_PER_ASSET` of its earlier ticks followed by its ticks
/// of the run, in arrival order, and its latest tick is the last one it got.
pub proof fn lemma_tick_history(
    recent: Map<Seq<char>, Seq<PriceTick>>,
    latest: Map<Seq<char>, PriceTick>,
    ticks: Seq<PriceTick>,
    asset: Seq<char>,
)
    requires
        forall|k: Seq<char>| #[trigger] recent.contains_key(k) ==> recent[k].len() <= RECENT_TICKS_PER_ASSET,
    ensures
        recent_of(recent_after(recent, ticks), asset) == keep_last(
            recent_of(recent, asset) + ticks_of(ticks, asset),
            RECENT_TICKS_PER_ASSET as int,
        ),
        recent_of(recent_after(recent, ticks), asset).len() <= RECENT_TICKS_PER_ASSET,
        ticks_of(ticks, asset).len() > 0 ==> latest_after(latest, ticks).contains_key(asset)
            && latest_after(latest, ticks)[asset] == ticks_of(ticks, asset).last(),
        ticks_of(ticks, asset).len() == 0 ==> latest_after(latest, ticks).contains_key(asset)
            == latest.contains_key(asset) && (latest.contains_key(asset) ==> latest_after(
            latest,
            ticks,
        )[asset] == latest[asset]),
    decreases ticks.len(),
{
    let l = RECENT_TICKS_PER_ASSET as int;
    if ticks.len() == 0 {
        assert(recent_of(recent, asset) + Seq::<PriceTick>::empty() =~= recent_of(recent, asset));
    } else {
        let init = ticks.drop_last();
        let t = ticks.last();
        lemma_tick_history(recent, latest, init, asset);
        let x = recent_of(recent, asset) + ticks_of(init, asset);
        if t.asset@ == asset {
            lemma_keep_last_push(x, t, l);
            assert(x.push(t) =~= recent_of(recent, asset) + ticks_of(ticks, asset));
        }
    }
}

proof fn lemma_tick_follows(states: Seq<RuntimeState>, ticks: Seq<PriceTick>, n: int)
    requires
        states.len() == ticks.len() + 1,
        forall|i: int|
            0 <= i < ticks.len() ==> #[trigger] states[i + 1].recent() == states[i].recent().insert(
                ticks[i].asset@,
                keep_last(
                    recent_of(states[i].recent(), ticks[i].asset@).push(ticks[i]),
                    RECENT_TICKS_PER_ASSET as int,
                ),
            ) && states[i + 1].latest() == states[i].latest().insert(ticks[i].asset@, ticks[i]),
        0 <= n <= ticks.len(),
    ensures
        states[n].recent() == recent_after(states[0].recent(), ticks.take(n)),
        states[n].latest() == latest_after(states[0].latest(), ticks.take(n)),
    decreases n,
{
    if n > 0 {
        lemma_tick_follows(states, ticks, n - 1);
        assert(ticks.take(n).drop_last() =~= ticks.take(n - 1));
        assert(ticks.take(n).last() == ticks[n - 1]);
        assert(states[(n - 1) + 1].recent() == states[n - 1].recent().insert(
            ticks[n - 1].asset@,
            keep_last(
                recent_of(states[n - 1].recent(), ticks[n - 1].asset@).push(ticks[n - 1]),
                RECENT_TICKS_PER_ASSET as int,
            ),
        ));
    } else {
        assert(ticks.take(0) =~= Seq::<PriceTick>::empty());
    }
}

/// A run of `apply_tick` calls follows the run model: after `n` ticks, each
/// asset keeps the last `RECENT_TICKS_PER_ASSET` of its earlier recent ticks
/// followed by its ticks among the first `n`, in arrival order, and its latest
/// tick is the last of them it got.
pub proof fn lemma_tick_run(states: Seq<RuntimeState>, ticks: Seq<PriceTick>)
    requires
        states.len() == ticks.len() + 1,
        states[0].wf(),
        forall|i: int|
            0 <= i < ticks.len() ==> #[trigger] states[i + 1].recent() == states[i].recent().insert(
                ticks[i].asset@,
                keep_last(
                    recent_of(states[i].recent(), ticks[i].asset@).push(ticks[i]),
                    RECENT_TICKS_PER_ASSET as int,
                ),
            ) && states[i + 1].latest() == states[i].latest().insert(ticks[i].asset@, ticks[i]),
    ensures
        forall|n: int, a: Seq<char>|
            0 <= n <= ticks.len() ==> #[trigger] recent_of(states[n].recent(), a) == keep_last(
                recent_of(states[0].recent(), a) + ticks_of(ticks.take(n), a),
                RECENT_TICKS_PER_ASSET as int,
            ) && recent_of(states[n].recent(), a).len() <= RECENT_TICKS_PER_ASSET,
        forall|n: int, a: Seq<char>|
            0 <= n <= ticks.len() && #[trigger] ticks_of(ticks.take(n), a).len() > 0 ==> states[n].latest().contains_key(a)
                && states[n].latest()[a] == ticks_of(ticks.take(n), a).last(),
{
    assert forall|k: Seq<char>| #[trigger] states[0].recent().contains_key(k) implies states[0].recent()[k].len()
        <= RECENT_TICKS_PER_ASSET by {}
    assert forall|n: int, a: Seq<char>|
        0 <= n <= ticks.len() implies #[trigger] recent_of(states[n].recent(), a) == keep_last(
        recent_of(states[0].recent(), a) + ticks_of(ticks.take(n), a),
        RECENT_TICKS_PER_ASSET as int,
    ) && recent_of(states[n].recent(), a).len() <= RECENT_TICKS_PER_ASSET by {
        lemma_tick_follows(states, ticks, n);
        lemma_tick_history(states[0].recent(), states[0].latest(), ticks.take(n), a);
    }
    assert forall|n: int, a: Seq<char>|
        0 <= n <= ticks.len() && #[trigger] ticks_of(ticks.take(n), a).len() > 0 implies states[n].latest().contains_key(
        a,
    ) && states[n].latest()[a] == ticks_of(ticks.take(n), a).last() by {
        lemma_tick_follows(states, ticks, n);
        lemma_tick_history(states[0].recent(), states[0].latest(), ticks.take(n), a);
    }
}

/// What a tick does to a stored market: it fixes the market's opening price at
/// the tick's price exactly when the market is of the tick's asset, has no
/// opening price yet, and the second of the tick's oracle timestamp
/// `feed_ts_ms` (rounded toward zero) lies between the market's start and the
/// end of its grace period, both included; otherwise the market is unchanged.
pub proof fn lemma_tick_opening_capture(
    markets: Map<Seq<char>, MarketWindow>,
    tick: PriceTick,
    grace: int,
    k: Seq<char>,
)
    requires
        markets.contains_key(k),
    ensures
        ({
            let m = markets[k];
            let second = if tick.feed_ts_ms >= 0 {
                tick.feed_ts_ms / 1000
            } else {
                -((-tick.feed_ts_ms) / 1000)
            };
            markets_after_tick(markets, tick, grace)[k] == if m.asset@ == tick.asset@
                && m.price_to_beat is None && m.start_ts <= second && second <= m.start_ts + grace {
                MarketWindow { price_to_beat: Some(tick.price), ..m }
            } else {
                m
            }
        }),
{
}

/// The receive time of a tick plays no part in which markets it fixes: two
/// ticks that differ only in `received_ts_ms` leave the markets alike.
pub proof fn lemma_tick_capture_ignores_receive_time(
    markets: Map<Seq<char>, MarketWindow>,
    tick: PriceTick,
    received_ts_ms: i64,
    grace: int,
)
    ensures
        markets_after_tick(markets, tick, grace) == markets_after_tick(
            markets,
            PriceTick { received_ts_ms, ..tick },
            grace,
        ),
{
    assert(markets_after_tick(markets, tick, grace) =~= markets_after_tick(
        markets,
        PriceTick { received_ts_ms, ..tick },
        grace,
    ));
}

/// The opening price a window takes from the recent ticks of its asset is the
/// price of one of those ticks whose oracle timestamp `feed_ts_ms` lies in
/// `[start_ts * 1000, (start_ts + grace) * 1000]`, with no tick in that range
/// timestamped earlier and none listed before it timestamped as early; when no
/// recent tick's `feed_ts_ms` lies in the range, it takes none.
pub proof fn lemma_backfill_earliest_feed_time(state: RuntimeState, market: MarketWindow)
    ensures
        ({
            let ticks = recent_of(state.recent(), market.asset@);
            let lo = market.start_ts * 1000;
            let hi = (market.start_ts + state.grace()) * 1000;
            &&& state.backfill(market) matches Some(p) ==> exists|i: int|
                #![trigger ticks[i]]
                0 <= i < ticks.len() && ticks[i].price == p && lo <= ticks[i].feed_ts_ms <= hi
                    && (forall|j: int|
                    0 <= j < ticks.len() && lo <= ticks[j].feed_ts_ms <= hi
                        ==> ticks[i].feed_ts_ms <= #[trigger] ticks[j].feed_ts_ms) && (forall|j: int|
                    0 <= j < i && lo <= ticks[j].feed_ts_ms <= hi ==> ticks[i].feed_ts_ms
                        < #[trigger] ticks[j].feed_ts_ms)
            &&& state.backfill(market) is None ==> forall|j: int|
                0 <= j < ticks.len() ==> !(lo <= #[trigger] ticks[j].feed_ts_ms <= hi)
        }),
{
    let ticks = recent_of(state.recent(), market.asset@);
    let lo = market.start_ts * 1000;
    let hi = (market.start_ts + state.grace()) * 1000;
    lemma_earliest_in(ticks, lo, hi);
    if let Some(p) = state.backfill(market) {
        let e = earliest_in(ticks, lo, hi).unwrap();
        let i = choose|i: int|
            #![trigger ticks[i]]
            0 <= i < ticks.len() && ticks[i] == e && in_window(e, lo, hi) && (forall|j: int|
                0 <= j < ticks.len() && in_window(ticks[j], lo, hi) ==> e.feed_ts_ms
                    <= ticks[j].feed_ts_ms) && (forall|j: int|
                0 <= j < i && in_window(ticks[j], lo, hi) ==> e.feed_ts_ms < ticks[j].feed_ts_ms);
        assert(ticks[i].price == p);
        assert forall|j: int|
            0 <= j < ticks.len() && lo <= ticks[j].feed_ts_ms <= hi implies ticks[i].feed_ts_ms
            <= #[trigger] ticks[j].feed_ts_ms by {
            assert(in_window(ticks[j], lo, hi));
        }
        assert forall|j: int|
            0 <= j < i && lo <= ticks[j].feed_ts_ms <= hi implies ticks[i].feed_ts_ms
            < #[trigger] ticks[j].feed_ts_ms by {
            assert(in_window(ticks[j], lo, hi));
        }
    } else {
        if state.recent().contains_key(market.asset@) {
            assert forall|j: int| 0 <= j < ticks.len() implies !(lo <= #[trigger] ticks[j].feed_ts_ms
                <= hi) by {
                assert(!in_window(ticks[j], lo, hi));
            }
        }
    }
}

/// The receive times of the recent ticks play no part in the backfilled
/// opening price: the earliest tick in a window of oracle timestamps is the
/// same whatever the ticks' receive times.
pub proof fn lemma_backfill_ignores_receive_times(ticks: Seq<PriceTick>, received: Seq<i64>, lo: int, hi: int)
    requires
        received.len() == ticks.len(),
    ensures
        (earliest_in(ticks, lo, hi) is None) == (earliest_in(
            Seq::new(ticks.len(), |i: int| PriceTick { received_ts_ms: received[i], ..ticks[i] }),
            lo,
            hi,
        ) is None),
        earliest_in(ticks, lo, hi) matches Some(e) ==> earliest_in(
            Seq::new(ticks.len(), |i: int| PriceTick { received_ts_ms: received[i], ..ticks[i] }),
            lo,
            hi,
        ) matches Some(f) && f.price == e.price && f.feed_ts_ms == e.feed_ts_ms,
    decreases ticks.len(),
{
    let moved = Seq::new(ticks.len(), |i: int| PriceTick { received_ts_ms: received[i], ..ticks[i] });
    if ticks.len() > 0 {
        let n = ticks.len() - 1;
        lemma_backfill_ignores_receive_times(ticks.drop_last(), received.drop_last(), lo, hi);
        let m2 = Seq::new(
            ticks.drop_last().len(),
            |i: int| PriceTick { received_ts_ms: received.drop_last()[i], ..ticks.drop_last()[i] },
        );
        assert(moved.drop_last() =~= m2);
        assert(moved.last() == PriceTick { received_ts_ms: received[n], ..ticks[n] });
        assert(ticks.last() == ticks[n]);
    }
}

/// Storing a window keeps an opening price it already knows: its own if it has
/// one, else the one recorded under its key; only when it knows none is it
/// backfilled from the recent ticks.
pub proof fn lemma_stored_price_keeps_known(state: RuntimeState, market: MarketWindow)
    ensures
        market.price_to_beat is Some ==> state.stored_price(market) == market.price_to_beat,
        market.price_to_beat is None && state.market_map().contains_key(
            market_key(market.asset@, market.start_ts as int),
        ) && state.market_map()[market_key(
            market.asset@,
            market.start_ts as int,
        )].price_to_beat is Some ==> state.stored_price(market) == state.market_map()[market_key(
            market.asset@,
            market.start_ts as int,
        )].price_to_beat,
        market.price_to_beat is None && !(state.market_map().contains_key(
            market_key(market.asset@, market.start_ts as int),
        ) && state.market_map()[market_key(
            market.asset@,
            market.start_ts as int,
        )].price_to_beat is Some) ==> state.stored_price(market) == state.backfill(market),
{
}

/// The backfilled opening tick lies within the window, no tick within the
/// window is earlier, and no earlier-listed tick is as early.
pub proof fn lemma_earliest_in(ticks: Seq<PriceTick>, lo: int, hi: int)
    ensures
        earliest_in(ticks, lo, hi) matches Some(e) ==> exists|i: int|
            #![trigger ticks[i]]
            0 <= i < ticks.len() && ticks[i] == e && in_window(e, lo, hi) && (forall|j: int|
                0 <= j < ticks.len() && in_window(ticks[j], lo, hi) ==> e.feed_ts_ms
                    <= ticks[j].feed_ts_ms) && (forall|j: int|
                0 <= j < i && in_window(ticks[j], lo, hi) ==> e.feed_ts_ms < ticks[j].feed_ts_ms),
        earliest_in(ticks, lo, hi) is None ==> forall|j: int|
            0 <= j < ticks.len() ==> !in_window(#[trigger] ticks[j], lo, hi),
    decreases ticks.len(),
{
    if ticks.len() > 0 {
        let init = ticks.drop_last();
        lemma_earliest_in(init, lo, hi);
        assert forall|j: int| 0 <= j < init.len() implies #[trigger] init[j] == ticks[j] by {}
        let t = ticks.last();
        assert(t == ticks[ticks.len() - 1]);
        match earliest_in(ticks, lo, hi) {
            Some(e) => {
                if earliest_in(init, lo, hi) == Some(e) {
                    let i = choose|i: int|
                        #![trigger init[i]]
                        0 <= i < init.len() && init[i] == e && in_window(e, lo, hi) && (forall|j: int|
                            0 <= j < init.len() && in_window(init[j], lo, hi) ==> e.feed_ts_ms
                                <= init[j].feed_ts_ms) && (forall|j: int|
                            0 <= j < i && in_window(init[j], lo, hi) ==> e.feed_ts_ms
                                < init[j].feed_ts_ms);
                    assert(ticks[i] == e);
                    assert forall|j: int|
                        0 <= j < ticks.len() && in_window(ticks[j], lo, hi) implies e.feed_ts_ms
                        <= ticks[j].feed_ts_ms by {
                        if j < init.len() {
                            assert(init[j] == ticks[j]);
                        }
                    }
                    assert forall|j: int|
                        0 <= j < i && in_window(ticks[j], lo, hi) implies e.feed_ts_ms
                        < ticks[j].feed_ts_ms by {
                        assert(init[j] == ticks[j]);
                    }
                } else {
                    let i = ticks.len() - 1;
                    assert(ticks[i] == e);
                    assert forall|j: int|
                        0 <= j < ticks.len() && in_window(ticks[j], lo, hi) implies e.feed_ts_ms
                        <= ticks[j].feed_ts_ms by {
                        if j < init.len() {
                            assert(init[j] == ticks[j]);
                        }
                    }
                    assert forall|j: int|
                        0 <= j < i && in_window(ticks[j], lo, hi) implies e.feed_ts_ms
                        < ticks[j].feed_ts_ms by {
                        assert(init[j] == ticks[j]);
                    }
                }
            },
            None => {
                assert forall|j: int| 0 <= j < ticks.len() implies !in_window(#[trigger] ticks[j], lo, hi) by {
                    if j < init.len() {
                        assert(init[j] == ticks[j]);
                    }
                }
            },
        }
    }
}

} // verus!
