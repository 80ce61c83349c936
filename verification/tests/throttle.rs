use oracle_bot::cli::arg_value;
use oracle_bot::model::Outcome;
use oracle_bot::throttle::{SignalKey, SignalLog};

fn key(reason: &str) -> SignalKey {
    SignalKey {
        asset: "BTC".into(),
        slug: "btc-updown-15m-1777738500".into(),
        outcome: Outcome::Up,
        reason: reason.into(),
    }
}

#[test]
fn signal_reports_are_spaced() {
    let mut log = SignalLog::new();
    assert!(!log.should_report(key("accepted"), 1999));
    assert!(log.should_report(key("accepted"), 2000));
    assert!(!log.should_report(key("accepted"), 3999));
    assert!(log.should_report(key("edge below threshold"), 3999));
    assert!(log.should_report(key("accepted"), 4000));
    let mut down = key("accepted");
    down.outcome = Outcome::Down;
    assert!(log.should_report(down, 4000));
}

#[test]
fn benchmark_options() {
    let args: Vec<String> = ["--iterations", "500", "--sample-every", "x", "--flag"]
        .iter()
        .map(|s| s.to_string())
        .collect();
    assert_eq!(arg_value(&args, "--iterations", 1_000_000), 500);
    assert_eq!(arg_value(&args, "--sample-every", 1), 1);
    assert_eq!(arg_value(&args, "--flag", 7), 7);
    assert_eq!(arg_value(&args, "--missing", 3), 3);
    assert_eq!(arg_value(&Vec::new(), "--iterations", 9), 9);
}
