use declimiter::error::DecLimiterError;
use declimiter::text::decimal_string;
use declimiter::util::{multiple, parse_datarate};

#[test]
fn test_parse_datarate() {
    assert_eq!(parse_datarate("100").unwrap(), 100);
    assert_eq!(parse_datarate("1K").unwrap(), 1_000);
    assert_eq!(parse_datarate("1.5K").unwrap(), 1_500);
    assert_eq!(parse_datarate("2M").unwrap(), 2_000_000);
    assert_eq!(parse_datarate("3.25G").unwrap(), 3_250_000_000);
    assert_eq!(parse_datarate("4T").unwrap(), 4_000_000_000_000);
    assert_eq!(parse_datarate("5.75P").unwrap(), 5_750_000_000_000_000);

    assert_eq!(parse_datarate("500bps").unwrap(), 500);
    assert_eq!(parse_datarate("2.5Kbps").unwrap(), 2_500);
    assert_eq!(parse_datarate("1Mbps").unwrap(), 1_000_000);
    assert_eq!(parse_datarate("1.78Mbps").unwrap(), 1_780_000);
}

#[test]
fn parse_datarate_lower_case_units() {
    assert_eq!(parse_datarate("7k").unwrap(), 7_000);
    assert_eq!(parse_datarate("7m").unwrap(), 7_000_000);
    assert_eq!(parse_datarate("7g").unwrap(), 7_000_000_000);
    assert_eq!(parse_datarate("7t").unwrap(), 7_000_000_000_000);
    assert_eq!(parse_datarate("7p").unwrap(), 7_000_000_000_000_000);
    assert_eq!(parse_datarate("7kbps").unwrap(), 7_000);
}

#[test]
fn parse_datarate_rounds_down_and_caps() {
    // A fraction finer than the unit is cut off.
    assert_eq!(parse_datarate("1.0005K").unwrap(), 1_000);
    assert_eq!(parse_datarate("0.9").unwrap(), 0);
    assert_eq!(parse_datarate("0").unwrap(), 0);
    assert_eq!(parse_datarate("007").unwrap(), 7);
    // Values beyond u64 are held at u64::MAX.
    assert_eq!(parse_datarate("99999P").unwrap(), u64::MAX);
    assert_eq!(parse_datarate("18446744073709551615").unwrap(), u64::MAX);
    assert_eq!(parse_datarate("18446744073709551616").unwrap(), u64::MAX);
}

#[test]
fn parse_datarate_rejects_other_text() {
    for bad in ["", "K", "1.", ".5", "1.5.5", "1KK", "1X", "1 K", "-1", "1Kb", "1bpsK", "1,5K", "bps"] {
        match parse_datarate(bad) {
            Err(DecLimiterError::ParseDatarateError(msg)) => {
                assert_eq!(msg, format!("Invalid datarate format: {}", bad));
            }
            other => panic!("{:?} gave {:?}", bad, other),
        }
    }
}

#[test]
fn multiple_of_each_unit() {
    assert_eq!(multiple(""), 1);
    assert_eq!(multiple("K"), 1_000);
    assert_eq!(multiple("k"), 1_000);
    assert_eq!(multiple("M"), 1_000_000);
    assert_eq!(multiple("m"), 1_000_000);
    assert_eq!(multiple("G"), 1_000_000_000);
    assert_eq!(multiple("g"), 1_000_000_000);
    assert_eq!(multiple("T"), 1_000_000_000_000);
    assert_eq!(multiple("t"), 1_000_000_000_000);
    assert_eq!(multiple("P"), 1_000_000_000_000_000);
    assert_eq!(multiple("p"), 1_000_000_000_000_000);
    assert_eq!(multiple("X"), 1);
    assert_eq!(multiple("KM"), 1);
}

#[test]
fn decimal_string_reads_back() {
    for n in [0u64, 1, 9, 10, 99, 100, 12345, 4_000_000_000, u64::MAX] {
        let s = decimal_string(n);
        assert_eq!(s, n.to_string());
        assert_eq!(parse_datarate(&s).unwrap(), n);
    }
}
