use earthquake_oracle::execution_phase::execution_phase;
use earthquake_oracle::execution_phase::ExecError;
use earthquake_oracle::observation::decode_observation;
use earthquake_oracle::observation::EarthquakeInfo;
use earthquake_oracle::tally_phase::tally_phase;
use earthquake_oracle::tally_phase::TallyError;

fn reveal_blob(mag: &str, location: &str, time: i64) -> Vec<u8> {
    format!(r#"{{"magnitude":{},"location":"{}","time":{}}}"#, mag, location, time).into_bytes()
}

#[test]
fn execution_builds_observation_from_source_document() {
    let doc = br#"{"features":[{"properties":{"mag":4.2, "place":"10km N of X", "time":1700000000000}}]}"#
        .to_vec();
    let bytes = execution_phase(true, &doc).unwrap();
    let obs = decode_observation(&bytes).unwrap();
    assert_eq!(
        obs,
        EarthquakeInfo {
            magnitude_e7: 42_000_000,
            location: "10km N of X".to_string(),
            time: 1_700_000_000_000,
        }
    );
}

#[test]
fn execution_is_idempotent_per_response() {
    let doc = br#"{"features":[{"properties":{"mag":1.5,"place":"p","time":3}}]}"#.to_vec();
    let first = execution_phase(true, &doc).unwrap();
    let second = execution_phase(true, &doc).unwrap();
    assert_eq!(first, second);
}

#[test]
fn execution_fails_on_empty_feature_list() {
    let doc = br#"{"features":[]}"#.to_vec();
    let err = execution_phase(true, &doc).unwrap_err();
    assert_eq!(err, ExecError::NoData);
    assert_eq!(err.message(), "No earthquake data found");
}

#[test]
fn execution_fails_on_transport_failure() {
    let err = execution_phase(false, &b"irrelevant".to_vec()).unwrap_err();
    assert_eq!(err, ExecError::FetchFailed);
    assert_eq!(err.message(), "Error while fetching earthquake data");
}

#[test]
fn execution_fails_on_unparseable_document() {
    let err = execution_phase(true, &b"not json at all".to_vec()).unwrap_err();
    assert_eq!(err, ExecError::BadDocument);
    assert_eq!(err.message(), "Could not parse earthquake data");
    let err = execution_phase(true, &br#"{"other":1}"#.to_vec()).unwrap_err();
    assert_eq!(err, ExecError::BadDocument);
}

#[test]
fn execution_fails_on_missing_magnitude() {
    let doc = br#"{"features":[{"properties":{"place":"p","time":3}}]}"#.to_vec();
    let err = execution_phase(true, &doc).unwrap_err();
    assert_eq!(err, ExecError::NoMagnitude);
    assert_eq!(err.message(), "No magnitude in data");
}

#[test]
fn execution_fails_on_missing_time() {
    let doc = br#"{"features":[{"properties":{"mag":2.0,"place":"p"}}]}"#.to_vec();
    let err = execution_phase(true, &doc).unwrap_err();
    assert_eq!(err, ExecError::NoTime);
    assert_eq!(err.message(), "No time in data");
}

#[test]
fn execution_defaults_missing_place() {
    let doc = br#"{"features":[{"properties":{"mag":2.5,"time":9}}]}"#.to_vec();
    let bytes = execution_phase(true, &doc).unwrap();
    let obs = decode_observation(&bytes).unwrap();
    assert_eq!(obs.location, "Unknown location");
}

#[test]
fn execution_accepts_edge_values() {
    // Magnitude 0, negative magnitude, and time 0 are all valid.
    let doc = br#"{"features":[{"properties":{"mag":0,"place":"p","time":0}}]}"#.to_vec();
    let obs = decode_observation(&execution_phase(true, &doc).unwrap()).unwrap();
    assert_eq!((obs.magnitude_e7, obs.time), (0, 0));
    let doc = br#"{"features":[{"properties":{"mag":-1.2,"place":"p","time":0}}]}"#.to_vec();
    let obs = decode_observation(&execution_phase(true, &doc).unwrap()).unwrap();
    assert_eq!(obs.magnitude_e7, -12_000_000);
}

#[test]
fn execution_uses_first_feature_only() {
    let doc = br#"{"features":[{"properties":{"mag":1.0,"place":"first","time":1}},{"properties":{"mag":9.0,"place":"second","time":2}}]}"#
        .to_vec();
    let obs = decode_observation(&execution_phase(true, &doc).unwrap()).unwrap();
    assert_eq!(obs.location, "first");
}

#[test]
fn tally_selects_middle_of_odd_set() {
    let reveals = vec![
        reveal_blob("3.0", "a", 1),
        reveal_blob("5.0", "b", 2),
        reveal_blob("4.0", "c", 3),
    ];
    let bytes = tally_phase(&reveals).unwrap();
    let obs = decode_observation(&bytes).unwrap();
    assert_eq!(obs.magnitude_e7, 40_000_000);
    assert_eq!(obs.location, "c");
}

#[test]
fn tally_selects_lower_median_of_even_set() {
    let reveals = vec![
        reveal_blob("3.0", "a", 1),
        reveal_blob("5.0", "b", 2),
        reveal_blob("4.0", "c", 3),
        reveal_blob("6.0", "d", 4),
    ];
    let bytes = tally_phase(&reveals).unwrap();
    let obs = decode_observation(&bytes).unwrap();
    assert_eq!(obs.magnitude_e7, 40_000_000);
    assert_eq!(obs.location, "c");
}

#[test]
fn tally_skips_malformed_reveals() {
    let reveals = vec![
        b"garbage".to_vec(),
        reveal_blob("2.5", "only valid", 7),
        Vec::new(),
    ];
    let bytes = tally_phase(&reveals).unwrap();
    let obs = decode_observation(&bytes).unwrap();
    assert_eq!(
        obs,
        EarthquakeInfo { magnitude_e7: 25_000_000, location: "only valid".to_string(), time: 7 }
    );
}

#[test]
fn tally_result_depends_only_on_valid_subset() {
    let valid = vec![
        reveal_blob("3.0", "a", 1),
        reveal_blob("5.0", "b", 2),
        reveal_blob("4.0", "c", 3),
    ];
    let mut polluted = vec![b"junk".to_vec()];
    polluted.extend(valid.iter().cloned());
    polluted.push(b"{\"more\":\"junk\"}".to_vec());
    assert_eq!(tally_phase(&valid), tally_phase(&polluted));
}

#[test]
fn tally_fails_without_decodable_reveal() {
    let err = tally_phase(&Vec::new()).unwrap_err();
    assert_eq!(err, TallyError::NoConsensus);
    assert_eq!(err.message(), "No consensus among revealed results");
    let reveals = vec![b"junk".to_vec(), b"more junk".to_vec()];
    let err = tally_phase(&reveals).unwrap_err();
    assert_eq!(err, TallyError::NoConsensus);
}

#[test]
fn tally_breaks_magnitude_ties_by_reveal_order() {
    let reveals = vec![reveal_blob("4.0", "first", 1), reveal_blob("4.0", "second", 2)];
    let bytes = tally_phase(&reveals).unwrap();
    let obs = decode_observation(&bytes).unwrap();
    assert_eq!(obs.location, "first");
}

#[test]
fn tally_reports_reencoded_canonical_bytes() {
    let reveals = vec![reveal_blob("4.50", "p", 12)];
    let bytes = tally_phase(&reveals).unwrap();
    assert_eq!(
        String::from_utf8(bytes).unwrap(),
        r#"{"location":"p","magnitude":4.5,"time":12}"#
    );
}

#[test]
fn phases_agree_on_the_wire_encoding() {
    let doc = br#"{"features":[{"properties":{"mag":6.1,"place":"ridge","time":42}}]}"#.to_vec();
    let revealed = execution_phase(true, &doc).unwrap();
    let bytes = tally_phase(&vec![revealed.clone()]).unwrap();
    assert_eq!(bytes, revealed);
}
