//! Best bid and ask per outcome token, kept up to date from market data messages.
use vstd::prelude::*;

use crate::binary64::Binary64;
use crate::json::{
    deref_opt,
    json_array,
    json_get,
    json_str,
    lenient_f64,
    lenient_float,
    lenient_i64,
    lenient_integer,
    JsonValue,
};
use crate::map::StrMap;
use crate::model::Quote;
use crate::text::str_eq;

verus! {

/// What a quote says, with the token id as characters.
pub struct QuoteView {
    pub token_id: Seq<char>,
    pub best_bid: Option<Binary64>,
    pub best_ask: Option<Binary64>,
    pub bid_size: Option<Binary64>,
    pub ask_size: Option<Binary64>,
    pub ts_ms: Option<i64>,
}

impl View for Quote {
    type V = QuoteView;

    open spec fn view(&self) -> QuoteView {
        QuoteView {
            token_id: self.token_id@,
            best_bid: self.best_bid,
            best_ask: self.best_ask,
            bid_size: self.bid_size,
            ask_size: self.ask_size,
            ts_ms: self.ts_ms,
        }
    }
}

// ---------------------------------------------------------------------------
// Book levels
// ---------------------------------------------------------------------------

/// A level's price, read leniently.
pub open spec fn level_price(level: JsonValue) -> Option<Binary64> {
    lenient_f64(json_get(level, "price"@))
}

/// A level's size, read leniently.
pub open spec fn level_size(level: JsonValue) -> Option<Binary64> {
    lenient_f64(json_get(level, "size"@))
}

/// `price` beats the best so far: it is the first price, or higher (for bids)
/// or lower (for asks) than the best.
pub open spec fn beats(price: Binary64, best: Option<Binary64>, high_is_best: bool) -> bool {
    match best {
        None => true,
        Some(b) => if high_is_best {
            price.spec_greater(b)
        } else {
            price.spec_less(b)
        },
    }
}

/// The best price among the levels and the size at the level that first
/// offered it; levels without a readable price are passed over.
pub open spec fn best_of(levels: Seq<JsonValue>, high_is_best: bool) -> (Option<Binary64>, Option<Binary64>)
    decreases levels.len(),
{
    if levels.len() == 0 {
        (None, None)
    } else {
        let (bp, bs) = best_of(levels.drop_last(), high_is_best);
        match level_price(levels.last()) {
            Some(p) => if beats(p, bp, high_is_best) {
                (Some(p), level_size(levels.last()))
            } else {
                (bp, bs)
            },
            None => (bp, bs),
        }
    }
}

/// The best level of a side of the book given as an array of levels.
pub open spec fn best_level_spec(value: Option<JsonValue>, high_is_best: bool) -> (Option<Binary64>, Option<Binary64>) {
    match value {
        Some(v) => match json_array(v) {
            Some(levels) => best_of(levels, high_is_best),
            None => (None, None),
        },
        None => (None, None),
    }
}

/// The best price on one side of the book and the size offered at it.
pub fn best_level(value: Option<&JsonValue>, high_is_best: bool) -> (res: (
    Option<Binary64>,
    Option<Binary64>,
))
    ensures
        res == best_level_spec(deref_opt(value), high_is_best),
{
    let mut best_price: Option<Binary64> = None;
    let mut best_size: Option<Binary64> = None;
    let levels = match value {
        Some(v) => match v.as_array() {
            Some(levels) => levels,
            None => {
                return (None, None);
            },
        },
        None => {
            return (None, None);
        },
    };
    let mut i: usize = 0;
    while i < levels.len()
        invariant
            i <= levels.len(),
            best_level_spec(deref_opt(value), high_is_best) == best_of(levels@, high_is_best),
            (best_price, best_size) == best_of(levels@.subrange(0, i as int), high_is_best),
        decreases levels.len() - i,
    {
        assert(levels@.subrange(0, i + 1).drop_last() =~= levels@.subrange(0, i as int));
        assert(levels@.subrange(0, i + 1).last() == levels@[i as int]);
        let level = &levels[i];
        match lenient_float(level.get("price")) {
            Some(price) => {
                let better = match best_price {
                    None => true,
                    Some(best) => if high_is_best {
                        price.greater_than(&best)
                    } else {
                        price.less_than(&best)
                    },
                };
                if better {
                    best_price = Some(price);
                    best_size = lenient_float(level.get("size"));
                }
            },
            None => {},
        }
        i = i + 1;
    }
    assert(levels@.subrange(0, levels.len() as int) =~= levels@);
    (best_price, best_size)
}

/// The best level's price is the price of one of the levels, there is one as
/// soon as some level has a readable price, and unless some level's price is
/// NaN, no level's price beats it.
pub proof fn lemma_best_level_is_best(levels: Seq<JsonValue>, high_is_best: bool)
    ensures
        best_of(levels, high_is_best).0 matches Some(p) ==> exists|i: int|
            0 <= i < levels.len() && level_price(#[trigger] levels[i]) == Some(p),
        best_of(levels, high_is_best).0 is None ==> forall|i: int|
            0 <= i < levels.len() ==> level_price(#[trigger] levels[i]) is None,
        (forall|i: int|
            0 <= i < levels.len() ==> !(level_price(#[trigger] levels[i]) matches Some(q)
                && q.is_nan())) ==> (best_of(levels, high_is_best).0 matches Some(p) ==> forall|
            i: int,
        |
            0 <= i < levels.len() ==> (level_price(#[trigger] levels[i]) matches Some(q) ==> !beats(
                q,
                Some(p),
                high_is_best,
            ))),
    decreases levels.len(),
{
    if levels.len() > 0 {
        let init = levels.drop_last();
        lemma_best_level_is_best(init, high_is_best);
        assert forall|i: int| 0 <= i < init.len() implies #[trigger] init[i] == levels[i] by {}
        let last = levels[levels.len() - 1];
        assert(levels.last() == last);
        if let Some(p) = best_of(levels, high_is_best).0 {
            if best_of(levels, high_is_best).0 == best_of(init, high_is_best).0 {
                let i = choose|i: int| 0 <= i < init.len() && level_price(#[trigger] init[i]) == Some(p);
                assert(level_price(levels[i]) == Some(p));
            } else {
                assert(level_price(levels[levels.len() - 1]) == Some(p));
            }
        } else {
            assert forall|i: int| 0 <= i < levels.len() implies level_price(#[trigger] levels[i]) is None by {
                if i < init.len() {
                    assert(level_price(init[i]) is None);
                }
            }
        }
        if (forall|i: int|
            0 <= i < levels.len() ==> !(level_price(#[trigger] levels[i]) matches Some(q)
                && q.is_nan())) {
            assert forall|i: int|
                0 <= i < init.len() implies !(level_price(#[trigger] init[i]) matches Some(q)
                    && q.is_nan()) by {
                assert(init[i] == levels[i]);
            }
            if let Some(p) = best_of(levels, high_is_best).0 {
                assert forall|i: int| 0 <= i < levels.len() implies (level_price(
                    #[trigger] levels[i],
                ) matches Some(q) ==> !beats(q, Some(p), high_is_best)) by {
                    if let Some(q) = level_price(levels[i]) {
                        assert(!q.is_nan());
                        assert(!p.is_nan()) by {
                            let k = choose|k: int| 0 <= k < levels.len() && level_price(#[trigger] levels[k]) == Some(p);
                        }
                        if i < init.len() {
                            assert(init[i] == levels[i]);
                            assert(level_price(init[i]) == Some(q));
                            if let Some(b) = best_of(init, high_is_best).0 {
                                assert(!beats(q, Some(b), high_is_best));
                                crate::binary64::lemma_greater_is_strict_order(q, b, p);
                                crate::binary64::lemma_greater_is_strict_order(p, b, q);
                                crate::binary64::lemma_greater_is_total_without_nan(q, b);
                                crate::binary64::lemma_greater_is_total_without_nan(p, b);
                            }
                        } else {
                            crate::binary64::lemma_greater_is_strict_order(q, q, q);
                        }
                    }
                }
            }
        }
    }
}

/// Unless some level's price is NaN, the best level is the first level at the
/// best price: its size is that level's size, and every level before it with
/// a price has a strictly worse one.
pub proof fn lemma_best_level_first(levels: Seq<JsonValue>, high_is_best: bool)
    requires
        forall|i: int|
            0 <= i < levels.len() ==> !(level_price(#[trigger] levels[i]) matches Some(q) && q.is_nan()),
    ensures
        best_of(levels, high_is_best).0 matches Some(p) ==> exists|i: int|
            0 <= i < levels.len() && level_price(#[trigger] levels[i]) == Some(p)
                && best_of(levels, high_is_best).1 == level_size(levels[i]) && forall|j: int|
                0 <= j < i ==> (level_price(#[trigger] levels[j]) matches Some(q) ==> beats(
                    p,
                    Some(q),
                    high_is_best,
                )),
    decreases levels.len(),
{
    if levels.len() > 0 {
        let init = levels.drop_last();
        assert forall|i: int| 0 <= i < init.len() implies #[trigger] init[i] == levels[i] by {}
        assert forall|i: int|
            0 <= i < init.len() implies !(level_price(#[trigger] init[i]) matches Some(q) && q.is_nan()) by {
            assert(init[i] == levels[i]);
        }
        lemma_best_level_first(init, high_is_best);
        lemma_best_level_is_best(init, high_is_best);
        let n = levels.len() - 1;
        assert(levels.last() == levels[n]);
        if let Some(p) = best_of(levels, high_is_best).0 {
            if best_of(levels, high_is_best) == best_of(init, high_is_best) {
                let i = choose|i: int|
                    0 <= i < init.len() && level_price(#[trigger] init[i]) == Some(p)
                        && best_of(init, high_is_best).1 == level_size(init[i]) && forall|j: int|
                        0 <= j < i ==> (level_price(#[trigger] init[j]) matches Some(q) ==> beats(
                            p,
                            Some(q),
                            high_is_best,
                        ));
                assert(level_price(levels[i]) == Some(p));
                assert forall|j: int| 0 <= j < i implies (level_price(#[trigger] levels[j]) matches Some(
                    q,
                ) ==> beats(p, Some(q), high_is_best)) by {
                    assert(init[j] == levels[j]);
                }
            } else {
                assert(level_price(levels[n]) == Some(p));
                assert forall|j: int| 0 <= j < n implies (level_price(#[trigger] levels[j]) matches Some(
                    q,
                ) ==> beats(p, Some(q), high_is_best)) by {
                    assert(init[j] == levels[j]);
                    if let Some(q) = level_price(levels[j]) {
                        assert(level_price(init[j]) == Some(q));
                        assert(!q.is_nan());
                        assert(!p.is_nan());
                        if let Some(b) = best_of(init, high_is_best).0 {
                            let k = choose|k: int|
                                0 <= k < init.len() && level_price(#[trigger] init[k]) == Some(b);
                            assert(init[k] == levels[k]);
                            assert(!b.is_nan());
                            assert(!beats(q, Some(b), high_is_best));
                        }
                    }
                }
            }
        }
    }
}

// ---------------------------------------------------------------------------
// The book
// ---------------------------------------------------------------------------

/// The latest quote of each token.
pub struct OrderBookState {
    quotes: StrMap<Quote>,
}

/// Quote fields, with the token id as characters.
pub open spec fn quote_view(
    token_id: Seq<char>,
    best_bid: Option<Binary64>,
    best_ask: Option<Binary64>,
    bid_size: Option<Binary64>,
    ask_size: Option<Binary64>,
    ts_ms: Option<i64>,
) -> QuoteView {
    QuoteView { token_id, best_bid, best_ask, bid_size, ask_size, ts_ms }
}

/// The quote a book holds for `token`, if any.
pub open spec fn prior_quote(book: Map<Seq<char>, QuoteView>, token: Seq<char>) -> Option<QuoteView> {
    if book.contains_key(token) {
        Some(book[token])
    } else {
        None
    }
}

pub open spec fn prior_bid_size(prior: Option<QuoteView>) -> Option<Binary64> {
    match prior {
        Some(q) => q.bid_size,
        None => None,
    }
}

pub open spec fn prior_ask_size(prior: Option<QuoteView>) -> Option<Binary64> {
    match prior {
        Some(q) => q.ask_size,
        None => None,
    }
}

pub open spec fn prior_best_bid(prior: Option<QuoteView>) -> Option<Binary64> {
    match prior {
        Some(q) => q.best_bid,
        None => None,
    }
}

pub open spec fn prior_best_ask(prior: Option<QuoteView>) -> Option<Binary64> {
    match prior {
        Some(q) => q.best_ask,
        None => None,
    }
}

pub open spec fn or_else(a: Option<Binary64>, b: Option<Binary64>) -> Option<Binary64> {
    match a {
        Some(x) => Some(x),
        None => b,
    }
}

/// A `book` snapshot: the token's quote becomes the best bid and ask of the
/// snapshot with their sizes.
pub open spec fn apply_book(book: Map<Seq<char>, QuoteView>, message: JsonValue) -> Map<Seq<char>, QuoteView> {
    match json_get(message, "asset_id"@) {
        Some(v) => match json_str(v) {
            Some(token) => {
                let (bid, bid_size) = best_level_spec(json_get(message, "bids"@), true);
                let (ask, ask_size) = best_level_spec(json_get(message, "asks"@), false);
                book.insert(
                    token,
                    quote_view(
                        token,
                        bid,
                        ask,
                        bid_size,
                        ask_size,
                        lenient_i64(json_get(message, "timestamp"@)),
                    ),
                )
            },
            None => book,
        },
        None => book,
    }
}

/// One entry of a `price_change` message: new best prices where given, the
/// sizes kept from the earlier quote.
pub open spec fn apply_change(book: Map<Seq<char>, QuoteView>, change: JsonValue, ts_ms: Option<i64>) -> Map<Seq<char>, QuoteView> {
    match json_get(change, "asset_id"@) {
        Some(v) => match json_str(v) {
            Some(token) => {
                let prior = prior_quote(book, token);
                book.insert(
                    token,
                    quote_view(
                        token,
                        or_else(lenient_f64(json_get(change, "best_bid"@)), prior_best_bid(prior)),
                        or_else(lenient_f64(json_get(change, "best_ask"@)), prior_best_ask(prior)),
                        prior_bid_size(prior),
                        prior_ask_size(prior),
                        ts_ms,
                    ),
                )
            },
            None => book,
        },
        None => book,
    }
}

/// The entries of a `price_change` message applied in order.
pub open spec fn apply_changes(book: Map<Seq<char>, QuoteView>, changes: Seq<JsonValue>, ts_ms: Option<i64>) -> Map<Seq<char>, QuoteView>
    decreases changes.len(),
{
    if changes.len() == 0 {
        book
    } else {
        apply_change(apply_changes(book, changes.drop_last(), ts_ms), changes.last(), ts_ms)
    }
}

/// A `price_change` message.
pub open spec fn apply_price_change(book: Map<Seq<char>, QuoteView>, message: JsonValue) -> Map<Seq<char>, QuoteView> {
    match json_get(message, "price_changes"@) {
        Some(v) => match json_array(v) {
            Some(changes) => apply_changes(
                book,
                changes,
                lenient_i64(json_get(message, "timestamp"@)),
            ),
            None => book,
        },
        None => book,
    }
}

/// A `best_bid_ask` message: the token's best prices are replaced, its sizes kept.
pub open spec fn apply_best_bid_ask(book: Map<Seq<char>, QuoteView>, message: JsonValue) -> Map<Seq<char>, QuoteView> {
    match json_get(message, "asset_id"@) {
        Some(v) => match json_str(v) {
            Some(token) => {
                let prior = prior_quote(book, token);
                book.insert(
                    token,
                    quote_view(
                        token,
                        lenient_f64(json_get(message, "best_bid"@)),
                        lenient_f64(json_get(message, "best_ask"@)),
                        prior_bid_size(prior),
                        prior_ask_size(prior),
                        lenient_i64(json_get(message, "timestamp"@)),
                    ),
                )
            },
            None => book,
        },
        None => book,
    }
}

/// A market data message applied to the book, by its `event_type`; messages of
/// other types leave the book as it is.
pub open spec fn apply_message(book: Map<Seq<char>, QuoteView>, message: JsonValue) -> Map<Seq<char>, QuoteView> {
    match json_get(message, "event_type"@) {
        Some(v) => match json_str(v) {
            Some(t) => if t == "book"@ {
                apply_book(book, message)
            } else if t == "price_change"@ {
                apply_price_change(book, message)
            } else if t == "best_bid_ask"@ {
                apply_best_bid_ask(book, message)
            } else {
                book
            },
            None => book,
        },
        None => book,
    }
}

impl OrderBookState {
    /// Every stored quote sits under its own token id.
    pub open spec fn wf(self) -> bool {
        &&& self.quotes_map().wf()
        &&& forall|k: Seq<char>| #[trigger]
            self.quotes_map().view().contains_key(k) ==> self.quotes_map().view()[k].token_id@ == k
    }

    pub closed spec fn quotes_map(self) -> StrMap<Quote> {
        self.quotes
    }

    /// The quotes by token id.
    pub open spec fn view(self) -> Map<Seq<char>, QuoteView> {
        Map::new(
            |k: Seq<char>| self.quotes_map().view().contains_key(k),
            |k: Seq<char>| self.quotes_map().view()[k]@,
        )
    }

    /// An empty book.
    pub fn new() -> (res: Self)
        ensures
            res.wf(),
            res.view() == Map::<Seq<char>, QuoteView>::empty(),
    {
        let res = OrderBookState { quotes: StrMap::new() };
        assert(res.view() =~= Map::<Seq<char>, QuoteView>::empty());
        res
    }

    /// A copy of the book.
    pub fn duplicate(&self) -> (res: Self)
        requires
            self.wf(),
        ensures
            res.wf(),
            res.view() == self.view(),
    {
        let res = OrderBookState { quotes: self.quotes.duplicate() };
        assert(res.view() =~= self.view());
        res
    }

    /// The number of tokens quoted.
    pub fn len(&self) -> (res: usize)
        requires
            self.wf(),
        ensures
            res == self.view().len(),
    {
        assert(self.view().dom() =~= self.quotes_map().view().dom());
        self.quotes.len()
    }

    /// The latest quote of `token_id`.
    pub fn quote(&self, token_id: &str) -> (res: Option<&Quote>)
        requires
            self.wf(),
        ensures
            match res {
                Some(q) => self.view().contains_key(token_id@) && q@ == self.view()[token_id@],
                None => !self.view().contains_key(token_id@),
            },
    {
        self.quotes.get(token_id)
    }

    fn store(&mut self, quote: Quote)
        requires
            old(self).wf(),
        ensures
            final(self).wf(),
            final(self).view() == old(self).view().insert(quote.token_id@, quote@),
    {
        let ghost k = quote.token_id@;
        let ghost v = quote@;
        let key = quote.token_id.clone();
        self.quotes.insert(key, quote);
        assert(self.view() =~= old(self).view().insert(k, v));
    }

    /// Applies a market data message: `book` snapshots, `price_change`
    /// updates and `best_bid_ask` updates; other messages change nothing.
    pub fn update_from_message(&mut self, message: &JsonValue)
        requires
            old(self).wf(),
        ensures
            final(self).wf(),
            final(self).view() == apply_message(old(self).view(), *message),
    {
        match message.get("event_type") {
            Some(v) => match v.as_str() {
                Some(t) => {
                    if str_eq(t, "book") {
                        self.update_book(message);
                    } else if str_eq(t, "price_change") {
                        self.update_price_change(message);
                    } else if str_eq(t, "best_bid_ask") {
                        self.update_best_bid_ask(message);
                    }
                },
                None => {},
            },
            None => {},
        }
    }

    fn update_book(&mut self, message: &JsonValue)
        requires
            old(self).wf(),
        ensures
            final(self).wf(),
            final(self).view() == apply_book(old(self).view(), *message),
    {
        let token_id = match message.get("asset_id") {
            Some(v) => match v.as_str() {
                Some(t) => t,
                None => {
                    return;
                },
            },
            None => {
                return;
            },
        };
        let (best_bid, bid_size) = best_level(message.get("bids"), true);
        let (best_ask, ask_size) = best_level(message.get("asks"), false);
        let quote = Quote {
            token_id: token_id.to_owned(),
            best_bid,
            best_ask,
            bid_size,
            ask_size,
            ts_ms: lenient_integer(message.get("timestamp")),
        };
        self.store(quote);
    }

    fn update_price_change(&mut self, message: &JsonValue)
        requires
            old(self).wf(),
        ensures
            final(self).wf(),
            final(self).view() == apply_price_change(old(self).view(), *message),
    {
        let ts_ms = lenient_integer(message.get("timestamp"));
        let changes = match message.get("price_changes") {
            Some(v) => match v.as_array() {
                Some(c) => c,
                None => {
                    return;
                },
            },
            None => {
                return;
            },
        };
        let ghost start = self.view();
        let mut i: usize = 0;
        while i < changes.len()
            invariant
                i <= changes.len(),
                self.wf(),
                apply_price_change(start, *message) == apply_changes(start, changes@, ts_ms),
                self.view() == apply_changes(start, changes@.subrange(0, i as int), ts_ms),
            decreases changes.len() - i,
        {
            assert(changes@.subrange(0, i + 1).drop_last() =~= changes@.subrange(0, i as int));
            assert(changes@.subrange(0, i + 1).last() == changes@[i as int]);
            let change = &changes[i];
            match change.get("asset_id") {
                Some(v) => match v.as_str() {
                    Some(token_id) => {
                        let prior = self.quotes.get(token_id);
                        let ghost pv = prior_quote(self.view(), token_id@);
                        let (prior_bid, prior_ask, prior_bid_size, prior_ask_size) = match prior {
                            Some(q) => (q.best_bid, q.best_ask, q.bid_size, q.ask_size),
                            None => (None, None, None, None),
                        };
                        let best_bid = match lenient_float(change.get("best_bid")) {
                            Some(b) => Some(b),
                            None => prior_bid,
                        };
                        let best_ask = match lenient_float(change.get("best_ask")) {
                            Some(a) => Some(a),
                            None => prior_ask,
                        };
                        let quote = Quote {
                            token_id: token_id.to_owned(),
                            best_bid,
                            best_ask,
                            bid_size: prior_bid_size,
                            ask_size: prior_ask_size,
                            ts_ms,
                        };
                        self.store(quote);
                    },
                    None => {},
                },
                None => {},
            }
            i = i + 1;
        }
        assert(changes@.subrange(0, changes.len() as int) =~= changes@);
    }

    fn update_best_bid_ask(&mut self, message: &JsonValue)
        requires
            old(self).wf(),
        ensures
            final(self).wf(),
            final(self).view() == apply_best_bid_ask(old(self).view(), *message),
    {
        let token_id = match message.get("asset_id") {
            Some(v) => match v.as_str() {
                Some(t) => t,
                None => {
                    return;
                },
            },
            None => {
                return;
            },
        };
        let (bid_size, ask_size) = match self.quotes.get(token_id) {
            Some(q) => (q.bid_size, q.ask_size),
            None => (None, None),
        };
        let quote = Quote {
            token_id: token_id.to_owned(),
            best_bid: lenient_float(message.get("best_bid")),
            best_ask: lenient_float(message.get("best_ask")),
            bid_size,
            ask_size,
            ts_ms: lenient_integer(message.get("timestamp")),
        };
        self.store(quote);
    }
}

impl Default for OrderBookState {
    /// An empty book.
    fn default() -> (res: Self)
        ensures
            res.wf(),
            res.view() == Map::<Seq<char>, QuoteView>::empty(),
    {
        OrderBookState::new()
    }
}

/// The quotes of a book sit under their own token ids.
pub open spec fn quotes_under_own_ids(book: Map<Seq<char>, QuoteView>) -> bool {
    forall|k: Seq<char>| #[trigger] book.contains_key(k) ==> book[k].token_id == k
}

proof fn lemma_changes_keep_tokens(book: Map<Seq<char>, QuoteView>, changes: Seq<JsonValue>, ts_ms: Option<i64>)
    requires
        quotes_under_own_ids(book),
    ensures
        quotes_under_own_ids(apply_changes(book, changes, ts_ms)),
        book.dom().subset_of(apply_changes(book, changes, ts_ms).dom()),
    decreases changes.len(),
{
    if changes.len() > 0 {
        lemma_changes_keep_tokens(book, changes.drop_last(), ts_ms);
    }
}

/// No market data message removes a token from the book, and every quote stays
/// under its own token id.
pub proof fn lemma_book_keeps_tokens(book: Map<Seq<char>, QuoteView>, message: JsonValue)
    requires
        quotes_under_own_ids(book),
    ensures
        quotes_under_own_ids(apply_message(book, message)),
        book.dom().subset_of(apply_message(book, message).dom()),
{
    if let Some(v) = json_get(message, "price_changes"@) {
        if let Some(changes) = json_array(v) {
            lemma_changes_keep_tokens(book, changes, lenient_i64(json_get(message, "timestamp"@)));
        }
    }
}

/// The token a message or a `price_change` entry names in `asset_id`, if any.
pub open spec fn asset_token(value: JsonValue) -> Option<Seq<char>> {
    match json_get(value, "asset_id"@) {
        Some(v) => json_str(v),
        None => None,
    }
}

/// The tokens the entries of a `price_change` message name.
pub open spec fn change_tokens(changes: Seq<JsonValue>) -> Set<Seq<char>>
    decreases changes.len(),
{
    if changes.len() == 0 {
        Set::empty()
    } else {
        let rest = change_tokens(changes.drop_last());
        match asset_token(changes.last()) {
            Some(t) => rest.insert(t),
            None => rest,
        }
    }
}

/// The tokens a market data message writes a quote for.
pub open spec fn message_tokens(message: JsonValue) -> Set<Seq<char>> {
    match json_get(message, "event_type"@) {
        Some(v) => match json_str(v) {
            Some(t) => if t == "book"@ {
                match asset_token(message) {
                    Some(tok) => Set::empty().insert(tok),
                    None => Set::empty(),
                }
            } else if t == "price_change"@ {
                match json_get(message, "price_changes"@) {
                    Some(c) => match json_array(c) {
                        Some(changes) => change_tokens(changes),
                        None => Set::empty(),
                    },
                    None => Set::empty(),
                }
            } else if t == "best_bid_ask"@ {
                match asset_token(message) {
                    Some(tok) => Set::empty().insert(tok),
                    None => Set::empty(),
                }
            } else {
                Set::empty()
            },
            None => Set::empty(),
        },
        None => Set::empty(),
    }
}

/// The book after a run of messages, applied in order.
pub open spec fn apply_messages(book: Map<Seq<char>, QuoteView>, messages: Seq<JsonValue>) -> Map<Seq<char>, QuoteView>
    decreases messages.len(),
{
    if messages.len() == 0 {
        book
    } else {
        apply_message(apply_messages(book, messages.drop_last()), messages.last())
    }
}

/// Every token a run of messages writes a quote for.
pub open spec fn written_tokens(messages: Seq<JsonValue>) -> Set<Seq<char>>
    decreases messages.len(),
{
    if messages.len() == 0 {
        Set::empty()
    } else {
        written_tokens(messages.drop_last()).union(message_tokens(messages.last()))
    }
}

proof fn lemma_changes_tokens(book: Map<Seq<char>, QuoteView>, changes: Seq<JsonValue>, ts_ms: Option<i64>)
    ensures
        apply_changes(book, changes, ts_ms).dom() == book.dom().union(change_tokens(changes)),
    decreases changes.len(),
{
    if changes.len() > 0 {
        lemma_changes_tokens(book, changes.drop_last(), ts_ms);
        assert(apply_changes(book, changes, ts_ms).dom() =~= book.dom().union(change_tokens(changes)));
    } else {
        assert(book.dom().union(Set::empty()) =~= book.dom());
    }
}

proof fn lemma_message_tokens(book: Map<Seq<char>, QuoteView>, message: JsonValue)
    ensures
        apply_message(book, message).dom() == book.dom().union(message_tokens(message)),
{
    if let Some(v) = json_get(message, "price_changes"@) {
        if let Some(changes) = json_array(v) {
            lemma_changes_tokens(book, changes, lenient_i64(json_get(message, "timestamp"@)));
        }
    }
    assert(apply_message(book, message).dom() =~= book.dom().union(message_tokens(message)));
}

/// Over any run of market data messages, starting from an empty book: every
/// quote sits under its own token id, the book quotes exactly the tokens the
/// messages wrote, so its size is the number of distinct tokens written, and
/// no token once quoted is dropped later in the run.
pub proof fn lemma_book_history(messages: Seq<JsonValue>)
    ensures
        quotes_under_own_ids(apply_messages(Map::empty(), messages)),
        apply_messages(Map::empty(), messages).dom() == written_tokens(messages),
        apply_messages(Map::empty(), messages).len() == written_tokens(messages).len(),
        forall|i: int, j: int|
            0 <= i <= j <= messages.len() ==> #[trigger] apply_messages(Map::empty(), messages.take(i)).dom().subset_of(
                #[trigger] apply_messages(Map::empty(), messages.take(j)).dom(),
            ),
    decreases messages.len(),
{
    if messages.len() > 0 {
        let init = messages.drop_last();
        lemma_book_history(init);
        lemma_book_keeps_tokens(apply_messages(Map::empty(), init), messages.last());
        lemma_message_tokens(apply_messages(Map::empty(), init), messages.last());
        assert forall|i: int, j: int|
            0 <= i <= j <= messages.len() implies #[trigger] apply_messages(Map::empty(), messages.take(i)).dom().subset_of(
                #[trigger] apply_messages(Map::empty(), messages.take(j)).dom(),
            ) by {
            if j == messages.len() {
                assert(messages.take(j) =~= messages);
                if i < j {
                    assert(messages.take(i) =~= init.take(i));
                    assert(init.take(init.len() as int) =~= init);
                    assert(apply_messages(Map::empty(), init.take(i)).dom().subset_of(
                        apply_messages(Map::empty(), init.take(init.len() as int)).dom(),
                    ));
                }
            } else {
                assert(messages.take(i) =~= init.take(i));
                assert(messages.take(j) =~= init.take(j));
                assert(apply_messages(Map::empty(), init.take(i)).dom().subset_of(
                    apply_messages(Map::empty(), init.take(j)).dom(),
                ));
            }
        }
    } else {
        assert(apply_messages(Map::empty(), messages).dom() =~= Set::<Seq<char>>::empty());
        assert forall|i: int, j: int|
            0 <= i <= j <= messages.len() implies #[trigger] apply_messages(Map::empty(), messages.take(i)).dom().subset_of(
                #[trigger] apply_messages(Map::empty(), messages.take(j)).dom(),
            ) by {
            assert(messages.take(i) =~= messages.take(j));
        }
    }
}

proof fn lemma_book_follows(books: Seq<OrderBookState>, messages: Seq<JsonValue>, n: int)
    requires
        books.len() == messages.len() + 1,
        books[0].view() == Map::<Seq<char>, QuoteView>::empty(),
        forall|i: int|
            0 <= i < messages.len() ==> #[trigger] books[i + 1].view() == apply_message(
                books[i].view(),
                messages[i],
            ),
        0 <= n <= messages.len(),
    ensures
        books[n].view() == apply_messages(Map::empty(), messages.take(n)),
    decreases n,
{
    if n > 0 {
        lemma_book_follows(books, messages, n - 1);
        assert(messages.take(n).drop_last() =~= messages.take(n - 1));
        assert(messages.take(n).last() == messages[n - 1]);
        assert(books[(n - 1) + 1].view() == apply_message(books[n - 1].view(), messages[n - 1]));
    } else {
        assert(messages.take(0) =~= Seq::<JsonValue>::empty());
    }
}

/// A run of `update_from_message` calls on a book made by `OrderBookState::new`
/// (or `default`) follows the run model: after `n` messages the book is
/// `apply_messages` of the first `n`, every quote sits under its own token id,
/// the book quotes as many tokens as the messages wrote, and no token is ever
/// dropped from one book of the run to a later one.
pub proof fn lemma_book_run(books: Seq<OrderBookState>, messages: Seq<JsonValue>)
    requires
        books.len() == messages.len() + 1,
        books[0].view() == Map::<Seq<char>, QuoteView>::empty(),
        forall|i: int|
            0 <= i < messages.len() ==> #[trigger] books[i + 1].view() == apply_message(
                books[i].view(),
                messages[i],
            ),
    ensures
        forall|n: int|
            0 <= n <= messages.len() ==> #[trigger] books[n].view() == apply_messages(
                Map::empty(),
                messages.take(n),
            ),
        forall|n: int, t: Seq<char>|
            0 <= n <= messages.len() && #[trigger] books[n].view().contains_key(t) ==> books[n].view()[t].token_id == t,
        forall|n: int|
            0 <= n <= messages.len() ==> #[trigger] books[n].view().len() == written_tokens(
                messages.take(n),
            ).len(),
        forall|i: int, j: int|
            0 <= i <= j <= messages.len() ==> #[trigger] books[i].view().dom().subset_of(
                #[trigger] books[j].view().dom(),
            ),
{
    assert forall|n: int|
        0 <= n <= messages.len() implies #[trigger] books[n].view() == apply_messages(
        Map::empty(),
        messages.take(n),
    ) by {
        lemma_book_follows(books, messages, n);
    }
    assert forall|n: int, t: Seq<char>|
        0 <= n <= messages.len() && #[trigger] books[n].view().contains_key(t) implies books[n].view()[t].token_id
        == t by {
        lemma_book_follows(books, messages, n);
        lemma_book_history(messages.take(n));
    }
    assert forall|n: int|
        0 <= n <= messages.len() implies #[trigger] books[n].view().len() == written_tokens(
        messages.take(n),
    ).len() by {
        lemma_book_follows(books, messages, n);
        lemma_book_history(messages.take(n));
    }
    lemma_book_history(messages);
    assert forall|i: int, j: int|
        0 <= i <= j <= messages.len() implies #[trigger] books[i].view().dom().subset_of(
        #[trigger] books[j].view().dom(),
    ) by {
        lemma_book_follows(books, messages, i);
        lemma_book_follows(books, messages, j);
    }
}

/// After a `book` snapshot for a token, the token's quote is the snapshot's
/// best bid and ask with their sizes and its time; other tokens keep theirs.
pub proof fn lemma_book_snapshot_read_back(book: Map<Seq<char>, QuoteView>, message: JsonValue, token: Seq<char>, other: Seq<char>)
    requires
        json_get(message, "event_type"@) matches Some(e) && json_str(e) == Some("book"@),
        json_get(message, "asset_id"@) matches Some(v) && json_str(v) == Some(token),
        other != token,
    ensures
        apply_message(book, message)[token] == quote_view(
            token,
            best_level_spec(json_get(message, "bids"@), true).0,
            best_level_spec(json_get(message, "asks"@), false).0,
            best_level_spec(json_get(message, "bids"@), true).1,
            best_level_spec(json_get(message, "asks"@), false).1,
            lenient_i64(json_get(message, "timestamp"@)),
        ),
        prior_quote(apply_message(book, message), other) == prior_quote(book, other),
{
}

/// A `price_change` entry or a `best_bid_ask` message for a token keeps the
/// sizes of the token's earlier quote, and touches no other token.
pub proof fn lemma_updates_keep_sizes(book: Map<Seq<char>, QuoteView>, message: JsonValue, ts_ms: Option<i64>, token: Seq<char>, other: Seq<char>)
    requires
        json_get(message, "asset_id"@) matches Some(v) && json_str(v) == Some(token),
        other != token,
    ensures
        apply_change(book, message, ts_ms)[token].bid_size == prior_bid_size(prior_quote(book, token)),
        apply_change(book, message, ts_ms)[token].ask_size == prior_ask_size(prior_quote(book, token)),
        apply_best_bid_ask(book, message)[token].bid_size == prior_bid_size(prior_quote(book, token)),
        apply_best_bid_ask(book, message)[token].ask_size == prior_ask_size(prior_quote(book, token)),
        prior_quote(apply_change(book, message, ts_ms), other) == prior_quote(book, other),
        prior_quote(apply_best_bid_ask(book, message), other) == prior_quote(book, other),
{
}

} // verus!
