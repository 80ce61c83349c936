//! Rate limiting of signal reports: the same signal is reported at most once
//! every two seconds.
use vstd::prelude::*;

use crate::model::Outcome;
use crate::text::str_eq;

verus! {

/// How long, in milliseconds, a signal stays quiet after it was reported.
pub const REPORT_INTERVAL_MS: i64 = 2000;

/// What identifies a signal report: asset, market slug, outcome and reason.
#[derive(Debug)]
pub struct SignalKey {
    pub asset: String,
    pub slug: String,
    pub outcome: Outcome,
    pub reason: String,
}

/// A signal key with its texts as characters.
pub type SignalKeyView = (Seq<char>, Seq<char>, Outcome, Seq<char>);

impl View for SignalKey {
    type V = SignalKeyView;

    open spec fn view(&self) -> SignalKeyView {
        (self.asset@, self.slug@, self.outcome, self.reason@)
    }
}

/// When the signal with `key` was last reported, from the first entry for it.
pub open spec fn logged_at(entries: Seq<(SignalKeyView, i64)>, key: SignalKeyView) -> Option<i64>
    decreases entries.len(),
{
    if entries.len() == 0 {
        None
    } else if entries[0].0 == key {
        Some(entries[0].1)
    } else {
        logged_at(entries.drop_first(), key)
    }
}

/// A signal last reported at `last` (never, if `None`) may be reported at `now`:
/// at least the report interval has passed since `last`, counted from time 0
/// when it was never reported.
pub open spec fn may_report(last: Option<i64>, now: i64) -> bool {
    let since = match last {
        Some(t) => t as int,
        None => 0,
    };
    now - since >= REPORT_INTERVAL_MS
}

/// One report decision: the signal `key` weighed at `now` is reported (`res`)
/// exactly when `may_report` allows it, a report records `now` for `key`, and
/// nothing else changes.
pub open spec fn report_step(before: SignalLog, after: SignalLog, key: SignalKeyView, now: i64, res: bool) -> bool {
    &&& res == may_report(before.last_report(key), now)
    &&& (res ==> after.last_report(key) == Some(now))
    &&& forall|k: SignalKeyView| k != key ==> #[trigger] after.last_report(k) == before.last_report(k)
    &&& (!res ==> after.last_report(key) == before.last_report(key))
}

/// When each signal was last reported.
pub struct SignalLog {
    entries: Vec<(SignalKey, i64)>,
}

impl SignalLog {
    pub closed spec fn entries_view(self) -> Seq<(SignalKeyView, i64)> {
        self.entries@.map_values(|e: (SignalKey, i64)| (e.0@, e.1))
    }

    /// When the signal with `key` was last reported.
    pub open spec fn last_report(self, key: SignalKeyView) -> Option<i64> {
        logged_at(self.entries_view(), key)
    }

    /// A log with no reports.
    pub fn new() -> (res: Self)
        ensures
            forall|k: SignalKeyView| #[trigger] res.last_report(k) is None,
    {
        let res = SignalLog { entries: Vec::new() };
        assert(res.entries_view() =~= Seq::<(SignalKeyView, i64)>::empty());
        res
    }

    /// When the signal with `key` was last reported, if ever.
    pub fn last_reported(&self, key: &SignalKey) -> (res: Option<i64>)
        ensures
            res == self.last_report(key@),
    {
        let ghost ev = self.entries_view();
        let mut i: usize = 0;
        assert(ev.subrange(0, ev.len() as int) =~= ev);
        while i < self.entries.len()
            invariant
                i <= self.entries.len(),
                ev == self.entries_view(),
                ev.len() == self.entries.len(),
                logged_at(ev, key@) == logged_at(ev.subrange(i as int, ev.len() as int), key@),
            decreases self.entries.len() - i,
        {
            let e = &self.entries[i];
            let ghost rest = ev.subrange(i as int, ev.len() as int);
            assert(rest[0] == ev[i as int]);
            assert(ev[i as int] == (self.entries@[i as int].0@, self.entries@[i as int].1));
            if str_eq(e.0.asset.as_str(), key.asset.as_str()) && str_eq(
                e.0.slug.as_str(),
                key.slug.as_str(),
            ) && e.0.outcome == key.outcome && str_eq(e.0.reason.as_str(), key.reason.as_str()) {
                return Some(e.1);
            }
            assert(rest.drop_first() =~= ev.subrange(i + 1, ev.len() as int));
            i = i + 1;
        }
        assert(ev.subrange(i as int, ev.len() as int) =~= Seq::<(SignalKeyView, i64)>::empty());
        None
    }

    /// Decides whether the signal with `key` is reported at `now_ms`, and if so
    /// records the report.
    pub fn should_report(&mut self, key: SignalKey, now_ms: i64) -> (res: bool)
        requires
            i64::MIN <= now_ms - (match old(self).last_report(key@) {
                Some(t) => t as int,
                None => 0,
            }) <= i64::MAX,
        ensures
            res == may_report(old(self).last_report(key@), now_ms),
            res ==> final(self).last_report(key@) == Some(now_ms),
            forall|k: SignalKeyView|
                k != key@ ==> #[trigger] final(self).last_report(k) == old(self).last_report(k),
            !res ==> forall|k: SignalKeyView| #[trigger] final(self).last_report(k) == old(self).last_report(k),
            report_step(*old(self), *final(self), key@, now_ms, res),
    {
        let ghost ev = self.entries_view();
        let mut i: usize = 0;
        assert(ev.subrange(0, ev.len() as int) =~= ev);
        while i < self.entries.len()
            invariant
                i <= self.entries.len(),
                ev == self.entries_view(),
                ev.len() == self.entries.len(),
                logged_at(ev, key@) == logged_at(ev.subrange(i as int, ev.len() as int), key@),
                forall|j: int| 0 <= j < i ==> ev[j].0 != key@,
            ensures
                i <= ev.len(),
                i < ev.len() ==> ev[i as int].0 == key@,
                logged_at(ev, key@) == logged_at(ev.subrange(i as int, ev.len() as int), key@),
                forall|j: int| 0 <= j < i ==> ev[j].0 != key@,
            decreases self.entries.len() - i,
        {
            let e = &self.entries[i];
            let ghost rest = ev.subrange(i as int, ev.len() as int);
            assert(rest[0] == ev[i as int]);
            assert(ev[i as int] == (self.entries@[i as int].0@, self.entries@[i as int].1));
            if str_eq(e.0.asset.as_str(), key.asset.as_str()) && str_eq(
                e.0.slug.as_str(),
                key.slug.as_str(),
            ) && e.0.outcome == key.outcome && str_eq(e.0.reason.as_str(), key.reason.as_str()) {
                break;
            }
            assert(rest.drop_first() =~= ev.subrange(i + 1, ev.len() as int));
            i = i + 1;
        }
        let last: i64 = if i < self.entries.len() {
            self.entries[i].1
        } else {
            0
        };
        assert(i < ev.len() ==> logged_at(ev, key@) == Some(ev[i as int].1)) by {
            if i < ev.len() {
                assert(ev.subrange(i as int, ev.len() as int)[0] == ev[i as int]);
            }
        }
        assert(i == ev.len() ==> logged_at(ev, key@) is None) by {
            if i == ev.len() {
                assert(ev.subrange(i as int, ev.len() as int) =~= Seq::<(SignalKeyView, i64)>::empty());
            }
        }
        if now_ms - last < REPORT_INTERVAL_MS {
            return false;
        }
        if i < self.entries.len() {
            let e = &mut self.entries[i];
            e.1 = now_ms;
            proof {
                let nv = self.entries_view();
                assert(nv =~= ev.update(i as int, (key@, now_ms)));
                lemma_logged_at_update(ev, i as int, now_ms);
            }
        } else {
            self.entries.push((key, now_ms));
            proof {
                let nv = self.entries_view();
                assert(nv =~= ev.push((key@, now_ms)));
                lemma_logged_at_push(ev, key@, now_ms);
            }
        }
        true
    }
}

proof fn lemma_logged_at_update(ev: Seq<(SignalKeyView, i64)>, i: int, t: i64)
    requires
        0 <= i < ev.len(),
        forall|j: int| 0 <= j < i ==> ev[j].0 != ev[i].0,
    ensures
        logged_at(ev.update(i, (ev[i].0, t)), ev[i].0) == Some(t),
        forall|k: SignalKeyView|
            k != ev[i].0 ==> #[trigger] logged_at(ev.update(i, (ev[i].0, t)), k) == logged_at(ev, k),
    decreases i,
{
    let nv = ev.update(i, (ev[i].0, t));
    if i > 0 {
        assert(nv.drop_first() =~= ev.drop_first().update(i - 1, (ev[i].0, t)));
        lemma_logged_at_update(ev.drop_first(), i - 1, t);
        assert(nv[0] == ev[0]);
        assert(ev.drop_first()[i - 1] == ev[i]);
        assert forall|k: SignalKeyView| k != ev[i].0 implies #[trigger] logged_at(nv, k) == logged_at(ev, k) by {
            assert(logged_at(ev.drop_first().update(i - 1, (ev[i].0, t)), k) == logged_at(ev.drop_first(), k));
        }
    } else {
        assert(nv.drop_first() =~= ev.drop_first());
        assert forall|k: SignalKeyView| k != ev[i].0 implies #[trigger] logged_at(nv, k) == logged_at(ev, k) by {}
    }
}

proof fn lemma_logged_at_push(ev: Seq<(SignalKeyView, i64)>, key: SignalKeyView, t: i64)
    requires
        forall|j: int| 0 <= j < ev.len() ==> ev[j].0 != key,
    ensures
        logged_at(ev.push((key, t)), key) == Some(t),
        forall|k: SignalKeyView| k != key ==> #[trigger] logged_at(ev.push((key, t)), k) == logged_at(ev, k),
    decreases ev.len(),
{
    let nv = ev.push((key, t));
    if ev.len() > 0 {
        assert(nv.drop_first() =~= ev.drop_first().push((key, t)));
        lemma_logged_at_push(ev.drop_first(), key, t);
        assert(nv[0] == ev[0]);
        assert forall|k: SignalKeyView| k != key implies #[trigger] logged_at(nv, k) == logged_at(ev, k) by {
            assert(logged_at(ev.drop_first().push((key, t)), k) == logged_at(ev.drop_first(), k));
        }
    } else {
        assert(nv.drop_first() =~= Seq::<(SignalKeyView, i64)>::empty());
        assert forall|k: SignalKeyView| k != key implies #[trigger] logged_at(nv, k) == logged_at(ev, k) by {
            assert(nv[0].0 == key);
            assert(logged_at(nv.drop_first(), k) is None);
        }
    }
}

/// Once a signal is reported at `t`, the same signal is not reported again
/// before `t + REPORT_INTERVAL_MS`.
pub proof fn lemma_report_quiet_period(last: i64, now: i64)
    requires
        last <= now < last + REPORT_INTERVAL_MS,
    ensures
        !may_report(Some(last), now),
{
}

/// When the signal `key` was last reported after a run of report decisions,
/// each a signal and the time it was weighed, starting from an empty log; this
/// is what `SignalLog::new` and then `should_report` on each call keep.
pub open spec fn last_after(calls: Seq<(SignalKeyView, i64)>, key: SignalKeyView) -> Option<i64>
    decreases calls.len(),
{
    if calls.len() == 0 {
        None
    } else {
        let prev = last_after(calls.drop_last(), key);
        let (k, t) = calls.last();
        if k == key && may_report(prev, t) {
            Some(t)
        } else {
            prev
        }
    }
}

/// Call `i` of the run is reported.
pub open spec fn reported(calls: Seq<(SignalKeyView, i64)>, i: int) -> bool {
    may_report(last_after(calls.take(i), calls[i].0), calls[i].1)
}

proof fn lemma_last_after_bound(calls: Seq<(SignalKeyView, i64)>, key: SignalKeyView, n: int, i: int)
    requires
        0 <= i < n <= calls.len(),
        calls[i].0 == key,
        reported(calls, i),
    ensures
        last_after(calls.take(n), key) matches Some(t) && calls[i].1 <= t,
    decreases n,
{
    assert(calls.take(n).drop_last() =~= calls.take(n - 1));
    assert(calls.take(n).last() == calls[n - 1]);
    if n > i + 1 {
        lemma_last_after_bound(calls, key, n - 1, i);
    }
}

/// Across any run of report decisions, two reports of the same signal are at
/// least `REPORT_INTERVAL_MS` apart.
pub proof fn lemma_reports_spaced(calls: Seq<(SignalKeyView, i64)>, i: int, j: int)
    requires
        0 <= i < j < calls.len(),
        calls[i].0 == calls[j].0,
        reported(calls, i),
        reported(calls, j),
    ensures
        calls[j].1 - calls[i].1 >= REPORT_INTERVAL_MS,
{
    lemma_last_after_bound(calls, calls[i].0, j, i);
}


proof fn lemma_log_follows(logs: Seq<SignalLog>, calls: Seq<(SignalKeyView, i64)>, results: Seq<bool>, n: int)
    requires
        logs.len() == calls.len() + 1,
        results.len() == calls.len(),
        forall|k: SignalKeyView| #[trigger] logs[0].last_report(k) is None,
        forall|i: int|
            0 <= i < calls.len() ==> report_step(
                #[trigger] logs[i],
                logs[i + 1],
                calls[i].0,
                calls[i].1,
                results[i],
            ),
        0 <= n <= calls.len(),
    ensures
        forall|k: SignalKeyView| #[trigger] logs[n].last_report(k) == last_after(calls.take(n), k),
    decreases n,
{
    if n > 0 {
        lemma_log_follows(logs, calls, results, n - 1);
        assert(calls.take(n).drop_last() =~= calls.take(n - 1));
        assert(calls.take(n).last() == calls[n - 1]);
        assert(report_step(logs[n - 1], logs[n], calls[n - 1].0, calls[n - 1].1, results[n - 1]));
        assert forall|k: SignalKeyView| #[trigger] logs[n].last_report(k) == last_after(calls.take(n), k) by {
            assert(logs[n - 1].last_report(k) == last_after(calls.take(n - 1), k));
        }
    } else {
        assert forall|k: SignalKeyView| #[trigger] logs[n].last_report(k) == last_after(calls.take(n), k) by {
            assert(calls.take(0) =~= Seq::<(SignalKeyView, i64)>::empty());
        }
    }
}

/// A run of `should_report` calls on a log made by `SignalLog::new` follows the
/// run model: after `n` calls the log holds `last_after` of the first `n`, each
/// call reports exactly when `reported` says, and two reports of the same
/// signal are at least `REPORT_INTERVAL_MS` apart.
pub proof fn lemma_log_run(logs: Seq<SignalLog>, calls: Seq<(SignalKeyView, i64)>, results: Seq<bool>)
    requires
        logs.len() == calls.len() + 1,
        results.len() == calls.len(),
        forall|k: SignalKeyView| #[trigger] logs[0].last_report(k) is None,
        forall|i: int|
            0 <= i < calls.len() ==> report_step(
                #[trigger] logs[i],
                logs[i + 1],
                calls[i].0,
                calls[i].1,
                results[i],
            ),
    ensures
        forall|n: int, k: SignalKeyView|
            0 <= n <= calls.len() ==> #[trigger] logs[n].last_report(k) == last_after(calls.take(n), k),
        forall|i: int| 0 <= i < calls.len() ==> #[trigger] results[i] == reported(calls, i),
        forall|i: int, j: int|
            0 <= i < j < calls.len() && calls[i].0 == calls[j].0 && #[trigger] results[i]
                && #[trigger] results[j] ==> calls[j].1 - calls[i].1 >= REPORT_INTERVAL_MS,
{
    assert forall|n: int, k: SignalKeyView|
        0 <= n <= calls.len() implies #[trigger] logs[n].last_report(k) == last_after(calls.take(n), k) by {
        lemma_log_follows(logs, calls, results, n);
    }
    assert forall|i: int| 0 <= i < calls.len() implies #[trigger] results[i] == reported(calls, i) by {
        lemma_log_follows(logs, calls, results, i);
        assert(report_step(logs[i], logs[i + 1], calls[i].0, calls[i].1, results[i]));
    }
    assert forall|i: int, j: int|
        0 <= i < j < calls.len() && calls[i].0 == calls[j].0 && #[trigger] results[i]
            && #[trigger] results[j] implies calls[j].1 - calls[i].1 >= REPORT_INTERVAL_MS by {
        lemma_log_follows(logs, calls, results, i);
        lemma_log_follows(logs, calls, results, j);
        assert(report_step(logs[i], logs[i + 1], calls[i].0, calls[i].1, results[i]));
        assert(report_step(logs[j], logs[j + 1], calls[j].0, calls[j].1, results[j]));
        lemma_reports_spaced(calls, i, j);
    }
}

} // verus!
