use oracle_bot::timeframe::{
    candidate_window_starts, floor_window_start, slug_for, timeframe_seconds, TimeframeError,
};

#[test]
fn builds_15m_slugs() {
    assert_eq!(
        slug_for("btc", 1777738500, "15m"),
        "btc-updown-15m-1777738500"
    );
    assert_eq!(
        candidate_window_starts(1777738948, "15m", 1, 1).unwrap(),
        vec![1777737600, 1777738500, 1777739400]
    );
}

#[test]
fn timeframe_lengths() {
    assert_eq!(timeframe_seconds("5m").unwrap(), 300);
    assert_eq!(timeframe_seconds("15m").unwrap(), 900);
    assert_eq!(timeframe_seconds("1h").unwrap(), 3600);
}

#[test]
fn unsupported_timeframe_is_an_error() {
    let err = timeframe_seconds("2h").unwrap_err();
    assert_eq!(err.message(), "unsupported timeframe: 2h");
    match floor_window_start(100, "1d") {
        Err(TimeframeError::Unsupported { timeframe }) => assert_eq!(timeframe, "1d"),
        Ok(_) => panic!("expected an error"),
    }
    assert!(candidate_window_starts(100, "", 1, 1).is_err());
}

#[test]
fn floors_to_window_start() {
    assert_eq!(floor_window_start(1777738948, "15m").unwrap(), 1777738500);
    assert_eq!(floor_window_start(1777738500, "15m").unwrap(), 1777738500);
    assert_eq!(floor_window_start(3599, "1h").unwrap(), 0);
    assert_eq!(floor_window_start(-1, "5m").unwrap(), -300);
    assert_eq!(floor_window_start(-300, "5m").unwrap(), -300);
}

#[test]
fn candidate_windows_around_now() {
    assert_eq!(
        candidate_window_starts(1000, "5m", 0, 2).unwrap(),
        vec![900, 1200, 1500]
    );
    assert_eq!(candidate_window_starts(1000, "1h", 0, 0).unwrap(), vec![0]);
    assert_eq!(candidate_window_starts(1000, "1h", 2, -3).unwrap(), Vec::<i64>::new());
    assert_eq!(
        candidate_window_starts(7200, "1h", 2, -1).unwrap(),
        vec![0, 3600]
    );
}

#[test]
fn slug_with_negative_start() {
    assert_eq!(slug_for("eth", -5, "1h"), "eth-updown-1h--5");
    assert_eq!(slug_for("", 0, "5m"), "-updown-5m-0");
}
