//! Market window arithmetic: window lengths, window starts and market slugs.
use vstd::prelude::*;

use crate::text::{decimal_text, i64_to_text, push_str, str_eq};

verus! {

/// The length in seconds of a supported timeframe: `5m`, `15m` or `1h`.
pub open spec fn timeframe_seconds_spec(timeframe: Seq<char>) -> Option<i64> {
    if timeframe == seq!['5', 'm'] {
        Some(300)
    } else if timeframe == seq!['1', '5', 'm'] {
        Some(900)
    } else if timeframe == seq!['1', 'h'] {
        Some(3600)
    } else {
        None
    }
}

/// The start of the window of length `seconds` that holds `ts`.
pub open spec fn window_floor(ts: int, seconds: int) -> int {
    ts - ts % seconds
}

/// `window_floor` stays within `i64` for this timestamp and timeframe.
pub open spec fn floor_fits(ts: i64, timeframe: Seq<char>) -> bool {
    timeframe_seconds_spec(timeframe) matches Some(s) ==> window_floor(ts as int, s as int)
        >= i64::MIN
}

/// The candidate window starts around `ts`: `lookback` windows before the current
/// one, the current one, and `lookahead` windows after it.
pub open spec fn candidate_starts_spec(base: int, seconds: int, lookback: int, lookahead: int) -> Seq<int> {
    let n = if lookahead + lookback + 1 > 0 {
        (lookahead + lookback + 1) as nat
    } else {
        0nat
    };
    Seq::new(n, |k: int| base + (k - lookback) * seconds)
}

/// Every candidate start for these arguments fits in `i64`.
pub open spec fn candidates_fit(ts: i64, timeframe: Seq<char>, lookback: i32, lookahead: i32) -> bool {
    timeframe_seconds_spec(timeframe) matches Some(s) ==> {
        let base = window_floor(ts as int, s as int);
        &&& base >= i64::MIN
        &&& lookback > i32::MIN
        &&& (lookahead + lookback >= 0 ==> {
            &&& base - lookback * s >= i64::MIN
            &&& base + lookahead * s <= i64::MAX
        })
    }
}

/// The slug of the market that starts at `start_ts`: `{prefix}-updown-{timeframe}-{start_ts}`.
pub open spec fn slug_spec(prefix: Seq<char>, start_ts: int, timeframe: Seq<char>) -> Seq<char> {
    prefix + seq!['-', 'u', 'p', 'd', 'o', 'w', 'n', '-'] + timeframe + seq!['-'] + decimal_text(
        start_ts,
    )
}

/// The timeframe named in the configuration is not one the bot knows.
#[derive(Debug)]
pub enum TimeframeError {
    Unsupported { timeframe: String },
}

impl TimeframeError {
    /// The error text: `unsupported timeframe: {timeframe}`.
    pub fn message(&self) -> (res: String)
        ensures
            match self {
                TimeframeError::Unsupported { timeframe } => res@
                    == "unsupported timeframe: "@ + timeframe@,
            },
    {
        match self {
            TimeframeError::Unsupported { timeframe } => {
                let mut out = String::new();
                push_str(&mut out, "unsupported timeframe: ");
                push_str(&mut out, timeframe.as_str());
                out
            },
        }
    }
}

/// The length in seconds of `5m`, `15m` or `1h`; any other timeframe is an error.
pub fn timeframe_seconds(timeframe: &str) -> (res: Result<i64, TimeframeError>)
    ensures
        match res {
            Ok(s) => timeframe_seconds_spec(timeframe@) == Some(s),
            Err(TimeframeError::Unsupported { timeframe: t }) => {
                &&& timeframe_seconds_spec(timeframe@) is None
                &&& t@ == timeframe@
            },
        },
{
    proof {
        reveal_strlit("5m");
        reveal_strlit("15m");
        reveal_strlit("1h");
        assert("5m"@ =~= seq!['5', 'm']);
        assert("15m"@ =~= seq!['1', '5', 'm']);
        assert("1h"@ =~= seq!['1', 'h']);
    }
    if str_eq(timeframe, "5m") {
        Ok(5 * 60)
    } else if str_eq(timeframe, "15m") {
        Ok(15 * 60)
    } else if str_eq(timeframe, "1h") {
        Ok(60 * 60)
    } else {
        Err(TimeframeError::Unsupported { timeframe: timeframe.to_owned() })
    }
}

/// The start of the window that holds `ts`: the greatest multiple of the window
/// length that is not after `ts`.
pub fn floor_window_start(ts: i64, timeframe: &str) -> (res: Result<i64, TimeframeError>)
    requires
        floor_fits(ts, timeframe@),
    ensures
        match res {
            Ok(start) => timeframe_seconds_spec(timeframe@) matches Some(s) && start
                == window_floor(ts as int, s as int),
            Err(TimeframeError::Unsupported { timeframe: t }) => {
                &&& timeframe_seconds_spec(timeframe@) is None
                &&& t@ == timeframe@
            },
        },
{
    let seconds = timeframe_seconds(timeframe)?;
    let r = match ts.checked_rem_euclid(seconds) {
        Some(r) => r,
        None => {
            return Err(TimeframeError::Unsupported { timeframe: timeframe.to_owned() });
        },
    };
    Ok(ts - r)
}

/// The window starts from `lookback` windows before the current one to
/// `lookahead` windows after it, in increasing order.
pub fn candidate_window_starts(ts: i64, timeframe: &str, lookback: i32, lookahead: i32) -> (res:
    Result<Vec<i64>, TimeframeError>)
    requires
        candidates_fit(ts, timeframe@, lookback, lookahead),
    ensures
        match res {
            Ok(starts) => timeframe_seconds_spec(timeframe@) matches Some(s) && starts@.map_values(
                |x: i64| x as int,
            ) == candidate_starts_spec(
                window_floor(ts as int, s as int),
                s as int,
                lookback as int,
                lookahead as int,
            ),
            Err(TimeframeError::Unsupported { timeframe: t }) => {
                &&& timeframe_seconds_spec(timeframe@) is None
                &&& t@ == timeframe@
            },
        },
{
    let base = floor_window_start(ts, timeframe)?;
    let seconds = timeframe_seconds(timeframe)?;
    let ghost want = candidate_starts_spec(base as int, seconds as int, lookback as int, lookahead as int);
    let first: i64 = -(lookback as i64);
    let last: i64 = lookahead as i64;
    let mut out: Vec<i64> = Vec::new();
    let mut offset: i64 = first;
    while offset <= last
        invariant
            first <= offset,
            offset <= last + 1 || out.len() == 0,
            first == -(lookback as int),
            last == lookahead as int,
            timeframe_seconds_spec(timeframe@) == Some(seconds),
            0 < seconds <= 3600,
            lookahead + lookback >= 0 ==> base - lookback * seconds >= i64::MIN && base + lookahead
                * seconds <= i64::MAX,
            out@.len() == offset - first,
            forall|k: int|
                0 <= k < out@.len() ==> out@[k] as int == base + (k - lookback) * seconds,
        decreases last - offset + 1,
    {
        assert(lookahead + lookback >= 0);
        assert(base - lookback * seconds <= base + offset * seconds <= base + lookahead * seconds)
            by (nonlinear_arith)
            requires
                -lookback <= offset <= lookahead,
                seconds > 0,
        ;
        let start = base + offset * seconds;
        out.push(start);
        offset = offset + 1;
    }
    proof {
        let got = out@.map_values(|x: i64| x as int);
        assert(got.len() == want.len());
        assert forall|k: int| 0 <= k < got.len() implies got[k] == want[k] by {}
        assert(got =~= want);
    }
    Ok(out)
}

/// The slug of the market window that starts at `start_ts`.
pub fn slug_for(slug_prefix: &str, start_ts: i64, timeframe: &str) -> (res: String)
    ensures
        res@ == slug_spec(slug_prefix@, start_ts as int, timeframe@),
{
    let mut out = String::new();
    push_str(&mut out, slug_prefix);
    push_str(&mut out, "-updown-");
    push_str(&mut out, timeframe);
    push_str(&mut out, "-");
    let digits = i64_to_text(start_ts);
    push_str(&mut out, digits.as_str());
    proof {
        reveal_strlit("-updown-");
        reveal_strlit("-");
        assert(out@ =~= slug_spec(slug_prefix@, start_ts as int, timeframe@));
    }
    out
}

/// The window that holds `ts` starts at a multiple of the window length, no later
/// than `ts` and less than one window length before it.
pub proof fn lemma_window_floor_bounds(ts: int, seconds: int)
    requires
        seconds > 0,
    ensures
        window_floor(ts, seconds) <= ts < window_floor(ts, seconds) + seconds,
        window_floor(ts, seconds) % seconds == 0,
{
    vstd::arithmetic::div_mod::lemma_fundamental_div_mod(ts, seconds);
    vstd::arithmetic::div_mod::lemma_mod_multiples_basic(ts / seconds, seconds);
    assert(window_floor(ts, seconds) == seconds * (ts / seconds));
    vstd::arithmetic::mul::lemma_mul_is_commutative(seconds, ts / seconds);
}

/// A window start is its own window's start: when `floor_window_start(ts, tf)`
/// gives `Ok(s)`, calling it on `s` is within its precondition and gives
/// `Ok(s)` again.
pub proof fn lemma_floor_idempotent(ts: i64, timeframe: Seq<char>)
    requires
        floor_fits(ts, timeframe),
        timeframe_seconds_spec(timeframe) is Some,
    ensures
        ({
            let s = timeframe_seconds_spec(timeframe).unwrap() as int;
            let start = window_floor(ts as int, s);
            &&& i64::MIN <= start <= i64::MAX
            &&& floor_fits(start as i64, timeframe)
            &&& window_floor(start, s) == start
        }),
{
    let s = timeframe_seconds_spec(timeframe).unwrap() as int;
    let start = window_floor(ts as int, s);
    lemma_window_floor_bounds(ts as int, s);
}

/// Consecutive candidate starts are one window length apart, and the current
/// window sits at position `lookback`.
pub proof fn lemma_candidate_starts_spacing(base: int, seconds: int, lookback: int, lookahead: int)
    requires
        lookback >= 0,
        lookahead >= 0,
    ensures
        candidate_starts_spec(base, seconds, lookback, lookahead).len() == lookback + lookahead + 1,
        candidate_starts_spec(base, seconds, lookback, lookahead)[lookback] == base,
        forall|k: int|
            0 <= k < lookback + lookahead ==> #[trigger] candidate_starts_spec(
                base,
                seconds,
                lookback,
                lookahead,
            )[k + 1] == candidate_starts_spec(base, seconds, lookback, lookahead)[k] + seconds,
{
    let c = candidate_starts_spec(base, seconds, lookback, lookahead);
    assert forall|k: int| 0 <= k < lookback + lookahead implies #[trigger] c[k + 1] == c[k]
        + seconds by {
        assert((k + 1 - lookback) * seconds == (k - lookback) * seconds + seconds) by (nonlinear_arith);
    }
}

} // verus!
