use oracle_bot::binary64::Binary64;

fn b(f: f64) -> Binary64 {
    Binary64::from_bits(f.to_bits())
}

#[test]
fn comparisons_match_f64() {
    let values = [
        0.0, -0.0, 1.0, -1.0, 0.5, 1e-300, -1e300, f64::INFINITY, f64::NEG_INFINITY, f64::NAN,
        f64::MIN_POSITIVE, 5e-324,
    ];
    for x in values {
        assert_eq!(b(x).is_positive(), x > 0.0, "{} > 0", x);
        for y in values {
            assert_eq!(b(x).greater_than(&b(y)), x > y, "{} > {}", x, y);
            assert_eq!(b(x).less_than(&b(y)), x < y, "{} < {}", x, y);
            assert_eq!(b(x).at_least(&b(y)), x >= y, "{} >= {}", x, y);
        }
    }
}
