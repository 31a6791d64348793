use earthquake_oracle::decimal::parse_mag_e7_bytes;
use earthquake_oracle::decimal::render_mag_e7_bytes;
use earthquake_oracle::observation::decode_observation;
use earthquake_oracle::observation::encode_observation;
use earthquake_oracle::observation::EarthquakeInfo;

fn parse(text: &str) -> Option<i64> {
    parse_mag_e7_bytes(&text.as_bytes().to_vec())
}

fn render(m: i64) -> String {
    String::from_utf8(render_mag_e7_bytes(m)).unwrap()
}

#[test]
fn parse_plain_decimals() {
    assert_eq!(parse("4.2"), Some(42_000_000));
    assert_eq!(parse("3.0"), Some(30_000_000));
    assert_eq!(parse("0"), Some(0));
    assert_eq!(parse("0.0"), Some(0));
    assert_eq!(parse("-0.5"), Some(-5_000_000));
    assert_eq!(parse("-0"), Some(0));
    assert_eq!(parse("-7"), Some(-70_000_000));
    assert_eq!(parse("10.25"), Some(102_500_000));
    assert_eq!(parse("4.2000000"), Some(42_000_000));
    assert_eq!(parse("4.20000000000"), Some(42_000_000));
    assert_eq!(parse("0.0000001"), Some(1));
}

#[test]
fn parse_rejects_malformed() {
    assert_eq!(parse(""), None);
    assert_eq!(parse("-"), None);
    assert_eq!(parse("."), None);
    assert_eq!(parse(".5"), None);
    assert_eq!(parse("abc"), None);
    assert_eq!(parse("4.2.1"), None);
    assert_eq!(parse("1e5"), None);
    // An eighth nonzero fraction digit is below the fixed-point scale.
    assert_eq!(parse("4.00000001"), None);
    // The integer part may not reach 10^11.
    assert_eq!(parse("100000000000"), None);
    assert_eq!(parse("99999999999"), Some(999_999_999_990_000_000));
}

#[test]
fn render_canonical_text() {
    assert_eq!(render(42_000_000), "4.2");
    assert_eq!(render(40_000_000), "4");
    assert_eq!(render(0), "0");
    assert_eq!(render(-5_000_000), "-0.5");
    assert_eq!(render(102_500_000), "10.25");
    assert_eq!(render(1), "0.0000001");
    assert_eq!(render(-70_000_000), "-7");
}

#[test]
fn render_then_parse_is_identity() {
    for m in [
        0,
        1,
        -1,
        42_000_000,
        -5_000_000,
        999_999_999_990_000_000,
        -999_999_999_990_000_000,
        123_456_789,
    ] {
        assert_eq!(parse(&render(m)), Some(m));
    }
}

#[test]
fn encode_produces_exact_wire_bytes() {
    let obs = EarthquakeInfo {
        magnitude_e7: 42_000_000,
        location: "10km N of X".to_string(),
        time: 1_700_000_000_000,
    };
    let bytes = encode_observation(&obs);
    assert_eq!(
        String::from_utf8(bytes).unwrap(),
        r#"{"location":"10km N of X","magnitude":4.2,"time":1700000000000}"#
    );
}

#[test]
fn encode_escapes_location() {
    let obs = EarthquakeInfo {
        magnitude_e7: 0,
        location: "a \"quoted\" \\ place".to_string(),
        time: 0,
    };
    let bytes = encode_observation(&obs);
    let round = decode_observation(&bytes).unwrap();
    assert_eq!(round, obs);
}

#[test]
fn encode_decode_round_trip() {
    let obs = EarthquakeInfo {
        magnitude_e7: -1_234_567,
        location: "somewhere deep".to_string(),
        time: -5,
    };
    let bytes = encode_observation(&obs);
    let round = decode_observation(&bytes).unwrap();
    assert_eq!(round, obs);
}

#[test]
fn decode_reads_handwritten_wire_bytes() {
    let blob = br#"{"magnitude":5.25,"location":"somewhere","time":77}"#.to_vec();
    let obs = decode_observation(&blob).unwrap();
    assert_eq!(obs.magnitude_e7, 52_500_000);
    assert_eq!(obs.location, "somewhere");
    assert_eq!(obs.time, 77);
}

#[test]
fn decode_reads_negative_zero_as_zero() {
    // serde_json re-renders plain integer tokens, so a revealed `-0`
    // reaches the parser as `0`; either way the value is zero.
    let blob = br#"{"magnitude":-0,"location":"x","time":1}"#.to_vec();
    let obs = decode_observation(&blob).unwrap();
    assert_eq!(obs.magnitude_e7, 0);
}

#[test]
fn decode_rejects_malformed_blobs() {
    assert_eq!(decode_observation(&b"garbage".to_vec()), None);
    assert_eq!(decode_observation(&Vec::new()), None);
    assert_eq!(decode_observation(&br#"{"location":"x","time":1}"#.to_vec()), None);
    assert_eq!(
        decode_observation(&br#"{"magnitude":"4.2","location":"x","time":1}"#.to_vec()),
        None
    );
    assert_eq!(
        decode_observation(&br#"{"magnitude":4.2,"location":"x","time":1.5}"#.to_vec()),
        None
    );
    // A magnitude below the fixed-point scale is not representable.
    assert_eq!(
        decode_observation(&br#"{"magnitude":1e-12,"location":"x","time":1}"#.to_vec()),
        None
    );
}
