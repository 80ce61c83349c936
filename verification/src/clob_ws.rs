//! The market data feed: which tokens still need a subscription, and how a
//! feed message splits into market messages.
use vstd::prelude::*;

use crate::chainlink::{is_keepalive, is_keepalive_spec};
use crate::json::{json_array, push_quoted_list, quoted_list, texts_of, JsonValue};
use crate::text::{push_str, ascending, has_text, lemma_ascending_distinct, sorted_distinct, str_eq, texts_distinct};

verus! {

/// The market messages a feed message holds: the items of an array, or the
/// message itself.
pub open spec fn market_messages_spec(message: JsonValue) -> Seq<JsonValue> {
    match json_array(message) {
        Some(items) => items,
        None => seq![message],
    }
}

/// Splits a feed message into market messages: an array gives its items, any
/// other value is one message.
pub fn market_messages(message: JsonValue) -> (res: Vec<JsonValue>)
    ensures
        res@ == market_messages_spec(message),
{
    match message {
        JsonValue::Array(items) => items,
        other => {
            let mut v: Vec<JsonValue> = Vec::new();
            v.push(other);
            assert(v@ =~= seq![other]);
            v
        },
    }
}

/// The market messages of a feed frame: none for a keep-alive frame or a
/// frame whose text is not a JSON document, otherwise those the document
/// holds. `document` is what decoding the frame's text as JSON gave.
pub fn market_messages_from_frame(text: &str, document: Option<JsonValue>) -> (res: Vec<JsonValue>)
    ensures
        is_keepalive_spec(text@) || document is None ==> res@.len() == 0,
        !is_keepalive_spec(text@) ==> (document matches Some(m) ==> res@ == market_messages_spec(m)),
{
    if is_keepalive(text) {
        return Vec::new();
    }
    match document {
        Some(m) => market_messages(m),
        None => Vec::new(),
    }
}

fn contains_text(v: &Vec<String>, s: &String) -> (res: bool)
    ensures
        res == has_text(v@, s@),
{
    let mut i: usize = 0;
    while i < v.len()
        invariant
            i <= v.len(),
            forall|k: int| 0 <= k < i ==> v@[k]@ != s@,
        decreases v.len() - i,
    {
        if str_eq(v[i].as_str(), s.as_str()) {
            return true;
        }
        i = i + 1;
    }
    false
}

/// The wanted tokens that are not subscribed yet, each once, in ascending
/// order.
pub fn new_subscriptions(subscribed: &Vec<String>, wanted: &Vec<String>) -> (res: Vec<String>)
    ensures
        ascending(res@),
        texts_distinct(res@),
        forall|t: Seq<char>| #[trigger]
            has_text(res@, t) <==> (has_text(wanted@, t) && !has_text(subscribed@, t)),
{
    let mut out: Vec<String> = Vec::new();
    let mut i: usize = 0;
    while i < wanted.len()
        invariant
            i <= wanted.len(),
            texts_distinct(out@),
            forall|t: Seq<char>| #[trigger]
                has_text(out@, t) <==> (has_text(wanted@.subrange(0, i as int), t) && !has_text(
                    subscribed@,
                    t,
                )),
        decreases wanted.len() - i,
    {
        let ghost before = out@;
        let w = &wanted[i];
        let in_subscribed = contains_text(subscribed, w);
        let in_out = contains_text(&out, w);
        if !in_subscribed && !in_out {
            let c = w.clone();
            out.push(c);
            assert(out@ == before.push(c));
            assert(texts_distinct(out@)) by {
                assert forall|a: int, b: int| 0 <= a < b < out@.len() implies out@[a]@ != out@[b]@ by {
                    if b == before.len() {
                        assert(!has_text(before, w@));
                        if out@[a]@ == out@[b]@ {
                            assert(before[a]@ == w@);
                        }
                    }
                }
            }
        } else {
            assert(out@ == before);
        }
        proof {
            assert forall|t: Seq<char>| #[trigger]
                has_text(out@, t) <==> (has_text(wanted@.subrange(0, i + 1), t) && !has_text(
                    subscribed@,
                    t,
                )) by {
                let pre = wanted@.subrange(0, i as int);
                let next = wanted@.subrange(0, i + 1);
                assert(has_text(next, t) <==> (has_text(pre, t) || t == w@)) by {
                    if has_text(next, t) {
                        let k = choose|k: int| 0 <= k < next.len() && #[trigger] next[k]@ == t;
                        if k < i {
                            assert(pre[k] == next[k]);
                            assert(pre[k]@ == t);
                        } else {
                            assert(next[k] == wanted@[i as int]);
                        }
                    }
                    if has_text(pre, t) {
                        let k = choose|k: int| 0 <= k < pre.len() && #[trigger] pre[k]@ == t;
                        assert(pre[k] == next[k]);
                        assert(next[k]@ == t);
                    }
                    if t == w@ {
                        assert(next[i as int] == wanted@[i as int]);
                        assert(next[i as int]@ == t);
                    }
                }
                assert(has_text(before, t) <==> (has_text(pre, t) && !has_text(subscribed@, t)));
                assert(has_text(out@, t) <==> (has_text(before, t) || (!in_subscribed && !in_out && t
                    == w@))) by {
                    if !in_subscribed && !in_out {
                        if has_text(out@, t) {
                            let k = choose|k: int| 0 <= k < out@.len() && #[trigger] out@[k]@ == t;
                            if k < before.len() {
                                assert(before[k]@ == t);
                            }
                        }
                        if has_text(before, t) {
                            let k = choose|k: int| 0 <= k < before.len() && #[trigger] before[k]@ == t;
                            assert(out@[k]@ == t);
                        }
                        if t == w@ {
                            assert(out@[before.len() as int]@ == t);
                        }
                    }
                }
            }
        }
        i = i + 1;
    }
    assert(wanted@.subrange(0, wanted.len() as int) =~= wanted@);
    sorted_distinct(&out)
}


/// The first subscription frame of a connection:
/// `{"assets_ids":[...],"custom_feature_enabled":true,"type":"market"}`.
pub open spec fn initial_subscription_text(ids: Seq<Seq<char>>) -> Seq<char> {
    "{\"assets_ids\":["@ + quoted_list(ids) + "],\"custom_feature_enabled\":true,\"type\":\"market\"}"@
}

/// A later subscription frame: `{"assets_ids":[...],"operation":"subscribe"}`.
pub open spec fn subscription_update_text(ids: Seq<Seq<char>>) -> Seq<char> {
    "{\"assets_ids\":["@ + quoted_list(ids) + "],\"operation\":\"subscribe\"}"@
}

/// The first subscription frame of a connection, for `asset_ids` in order.
pub fn initial_subscription(asset_ids: &Vec<String>) -> (res: String)
    ensures
        res@ == initial_subscription_text(texts_of(asset_ids@)),
{
    let mut out = String::new();
    push_str(&mut out, "{\"assets_ids\":[");
    push_quoted_list(&mut out, asset_ids);
    push_str(&mut out, "],\"custom_feature_enabled\":true,\"type\":\"market\"}");
    assert(out@ =~= initial_subscription_text(texts_of(asset_ids@)));
    out
}

/// A later subscription frame, for `asset_ids` in order.
pub fn subscription_update(asset_ids: &Vec<String>) -> (res: String)
    ensures
        res@ == subscription_update_text(texts_of(asset_ids@)),
{
    let mut out = String::new();
    push_str(&mut out, "{\"assets_ids\":[");
    push_quoted_list(&mut out, asset_ids);
    push_str(&mut out, "],\"operation\":\"subscribe\"}");
    assert(out@ =~= subscription_update_text(texts_of(asset_ids@)));
    out
}

/// One subscription step: `batch` is the wanted tokens not yet sent, each
/// once and in ascending order, and it is appended to what was sent.
pub open spec fn subscribe_step(before: Seq<String>, after: Seq<String>, wanted: Seq<String>, batch: Seq<String>) -> bool {
    &&& after == before + batch
    &&& ascending(batch)
    &&& forall|t: Seq<char>| #[trigger] has_text(batch, t) <==> (has_text(wanted, t) && !has_text(before, t))
}

proof fn lemma_has_text_concat(a: Seq<String>, b: Seq<String>, t: Seq<char>)
    ensures
        has_text(a + b, t) <==> (has_text(a, t) || has_text(b, t)),
{
    if has_text(a + b, t) {
        let k = choose|k: int| 0 <= k < (a + b).len() && #[trigger] (a + b)[k]@ == t;
        if k < a.len() {
            assert(a[k]@ == t);
        } else {
            assert(b[k - a.len()]@ == t);
        }
    }
    if has_text(a, t) {
        let k = choose|k: int| 0 <= k < a.len() && #[trigger] a[k]@ == t;
        assert((a + b)[k]@ == t);
    }
    if has_text(b, t) {
        let k = choose|k: int| 0 <= k < b.len() && #[trigger] b[k]@ == t;
        assert((a + b)[a.len() + k]@ == t);
    }
}

proof fn lemma_subscriptions_follow(subs: Seq<Subscriptions>, wanted: Seq<Seq<String>>, batches: Seq<Seq<String>>, n: int)
    requires
        subs.len() == wanted.len() + 1,
        batches.len() == wanted.len(),
        subs[0].sent_ids().len() == 0,
        forall|i: int|
            0 <= i < wanted.len() ==> subscribe_step(
                #[trigger] subs[i].sent_ids(),
                subs[i + 1].sent_ids(),
                wanted[i],
                batches[i],
            ),
        0 <= n <= wanted.len(),
    ensures
        texts_distinct(subs[n].sent_ids()),
        forall|t: Seq<char>| #[trigger]
            has_text(subs[n].sent_ids(), t) <==> exists|j: int| 0 <= j < n && #[trigger] has_text(wanted[j], t),
    decreases n,
{
    if n > 0 {
        let m = n - 1;
        lemma_subscriptions_follow(subs, wanted, batches, m);
        let before = subs[m].sent_ids();
        let batch = batches[m];
        assert(subscribe_step(before, subs[m + 1].sent_ids(), wanted[m], batch));
        lemma_ascending_distinct(batch);
        let after = subs[n].sent_ids();
        assert(after == before + batch);
        assert forall|a: int, b: int| 0 <= a < b < after.len() implies after[a]@ != after[b]@ by {
            if a < before.len() && b >= before.len() {
                assert(after[b] == batch[b - before.len()]);
                assert(has_text(batch, after[b]@));
                if after[a]@ == after[b]@ {
                    assert(after[a] == before[a]);
                    assert(has_text(before, after[b]@));
                }
            } else if a >= before.len() {
                assert(after[a] == batch[a - before.len()]);
                assert(after[b] == batch[b - before.len()]);
            } else {
                assert(after[a] == before[a] && after[b] == before[b]);
            }
        }
        assert forall|t: Seq<char>| #[trigger]
            has_text(after, t) <==> exists|j: int| 0 <= j < n && #[trigger] has_text(wanted[j], t) by {
            lemma_has_text_concat(before, batch, t);
            if exists|j: int| 0 <= j < n && #[trigger] has_text(wanted[j], t) {
                let j = choose|j: int| 0 <= j < n && #[trigger] has_text(wanted[j], t);
                if j < m {
                    assert(has_text(before, t));
                } else if !has_text(before, t) {
                    assert(has_text(batch, t));
                }
            }
            if has_text(after, t) {
                if has_text(before, t) {
                    let j = choose|j: int| 0 <= j < m && #[trigger] has_text(wanted[j], t);
                    assert(0 <= j < n && has_text(wanted[j], t));
                } else {
                    assert(has_text(batch, t));
                    assert(has_text(wanted[m], t));
                }
            }
        }
    } else {
        assert forall|t: Seq<char>| #[trigger]
            has_text(subs[n].sent_ids(), t) <==> exists|j: int| 0 <= j < n && #[trigger] has_text(wanted[j], t) by {
            if has_text(subs[n].sent_ids(), t) {
                let k = choose|k: int| 0 <= k < subs[n].sent_ids().len() && #[trigger] subs[n].sent_ids()[k]@ == t;
            }
        }
    }
}

proof fn lemma_subscriptions_prefix(subs: Seq<Subscriptions>, wanted: Seq<Seq<String>>, batches: Seq<Seq<String>>, i: int, j: int)
    requires
        subs.len() == wanted.len() + 1,
        batches.len() == wanted.len(),
        forall|k: int|
            0 <= k < wanted.len() ==> subscribe_step(
                #[trigger] subs[k].sent_ids(),
                subs[k + 1].sent_ids(),
                wanted[k],
                batches[k],
            ),
        0 <= i <= j <= wanted.len(),
    ensures
        subs[i].sent_ids().len() <= subs[j].sent_ids().len(),
        subs[j].sent_ids().subrange(0, subs[i].sent_ids().len() as int) == subs[i].sent_ids(),
    decreases j - i,
{
    if i < j {
        lemma_subscriptions_prefix(subs, wanted, batches, i, j - 1);
        assert(subscribe_step(subs[j - 1].sent_ids(), subs[(j - 1) + 1].sent_ids(), wanted[j - 1], batches[j - 1]));
        let p = subs[i].sent_ids();
        let q = subs[j - 1].sent_ids();
        assert(subs[j].sent_ids() == q + batches[j - 1]);
        assert((q + batches[j - 1]).subrange(0, p.len() as int) =~= q.subrange(0, p.len() as int));
    } else {
        assert(subs[j].sent_ids().subrange(0, subs[i].sent_ids().len() as int) =~= subs[i].sent_ids());
    }
}

/// A run of `subscribe` calls on one connection, from `Subscriptions::new`:
/// no token is sent twice, the tokens sent after `n` calls are exactly those
/// wanted in any of them, and what was sent is never taken back (each list of
/// sent tokens starts with every earlier one).
pub proof fn lemma_subscription_run(subs: Seq<Subscriptions>, wanted: Seq<Seq<String>>, batches: Seq<Seq<String>>)
    requires
        subs.len() == wanted.len() + 1,
        batches.len() == wanted.len(),
        subs[0].sent_ids().len() == 0,
        forall|i: int|
            0 <= i < wanted.len() ==> subscribe_step(
                #[trigger] subs[i].sent_ids(),
                subs[i + 1].sent_ids(),
                wanted[i],
                batches[i],
            ),
    ensures
        forall|n: int| 0 <= n <= wanted.len() ==> texts_distinct(#[trigger] subs[n].sent_ids()),
        forall|n: int, t: Seq<char>|
            0 <= n <= wanted.len() ==> (#[trigger] has_text(subs[n].sent_ids(), t) <==> exists|j: int|
                0 <= j < n && #[trigger] has_text(wanted[j], t)),
        forall|i: int, j: int|
            0 <= i <= j <= wanted.len() ==> #[trigger] subs[j].sent_ids().subrange(
                0,
                subs[i].sent_ids().len() as int,
            ) == #[trigger] subs[i].sent_ids(),
{
    assert forall|n: int| 0 <= n <= wanted.len() implies texts_distinct(#[trigger] subs[n].sent_ids()) by {
        lemma_subscriptions_follow(subs, wanted, batches, n);
    }
    assert forall|n: int, t: Seq<char>|
        0 <= n <= wanted.len() implies (#[trigger] has_text(subs[n].sent_ids(), t) <==> exists|j: int|
        0 <= j < n && #[trigger] has_text(wanted[j], t)) by {
        lemma_subscriptions_follow(subs, wanted, batches, n);
    }
    assert forall|i: int, j: int|
        0 <= i <= j <= wanted.len() implies #[trigger] subs[j].sent_ids().subrange(
        0,
        subs[i].sent_ids().len() as int,
    ) == #[trigger] subs[i].sent_ids() by {
        lemma_subscriptions_prefix(subs, wanted, batches, i, j);
    }
}

/// The tokens subscribed on one connection, in the order they were sent.
pub struct Subscriptions {
    sent: Vec<String>,
}

impl Subscriptions {
    /// Every token sent so far on the connection, in order.
    pub closed spec fn sent_ids(self) -> Seq<String> {
        self.sent@
    }

    /// No token has been sent twice.
    pub open spec fn wf(self) -> bool {
        texts_distinct(self.sent_ids())
    }

    /// A fresh connection: nothing subscribed.
    pub fn new() -> (res: Self)
        ensures
            res.wf(),
            res.sent_ids() == Seq::<String>::empty(),
    {
        Subscriptions { sent: Vec::new() }
    }

    /// The tokens to subscribe to now that `wanted` are wanted: those not sent
    /// yet on this connection, each once, in ascending order. They are recorded
    /// as sent; tokens no longer wanted stay subscribed.
    pub fn subscribe(&mut self, wanted: &Vec<String>) -> (res: Vec<String>)
        requires
            old(self).wf(),
        ensures
            final(self).wf(),
            ascending(res@),
            forall|t: Seq<char>| #[trigger]
                has_text(res@, t) <==> (has_text(wanted@, t) && !has_text(old(self).sent_ids(), t)),
            final(self).sent_ids() == old(self).sent_ids() + res@,
            subscribe_step(old(self).sent_ids(), final(self).sent_ids(), wanted@, res@),
    {
        let res = new_subscriptions(&self.sent, wanted);
        let ghost before = self.sent@;
        let mut i: usize = 0;
        while i < res.len()
            invariant
                i <= res.len(),
                self.sent@ == before + res@.subrange(0, i as int),
                texts_distinct(before),
                texts_distinct(res@),
                forall|t: Seq<char>| #[trigger] has_text(res@, t) ==> !has_text(before, t),
            decreases res.len() - i,
        {
            self.sent.push(res[i].clone());
            assert(self.sent@ =~= before + res@.subrange(0, i + 1));
            i = i + 1;
        }
        assert(res@.subrange(0, res.len() as int) =~= res@);
        proof {
            let all = self.sent@;
            assert forall|a: int, b: int| 0 <= a < b < all.len() implies all[a]@ != all[b]@ by {
                if b >= before.len() && a < before.len() {
                    assert(all[b] == res@[b - before.len()]);
                    assert(has_text(res@, all[b]@));
                    if all[a]@ == all[b]@ {
                        assert(has_text(before, all[b]@));
                    }
                } else if a >= before.len() {
                    assert(all[a] == res@[a - before.len()]);
                    assert(all[b] == res@[b - before.len()]);
                }
            }
        }
        res
    }
}

} // verus!
