//! The canonical observation exchanged between the two phases, and its
//! byte codec.
use crate::decimal::json_number_wf;
use crate::decimal::lemma_parse_mag_bound;
use crate::decimal::lemma_parse_render_roundtrip;
use crate::decimal::lemma_render_json_wf;
use crate::decimal::lemma_render_not_neg_zero;
use crate::decimal::parse_mag_e7;
use crate::decimal::parse_mag_e7_bytes;
use crate::decimal::render_mag_e7;
use crate::decimal::render_mag_e7_bytes;
use crate::wire::decode_wire_fields;
use crate::wire::encode_wire_fields;
use crate::wire::encoded_wire_of;
use crate::wire::wire_fields_of;
use vstd::prelude::*;

verus! {

/// One node's earthquake observation: the canonical data unit of a round.
#[derive(Debug, PartialEq)]
pub struct EarthquakeInfo {
    /// Magnitude in fixed-point units of `10^-7` (`4.2` is `42_000_000`).
    pub magnitude_e7: i64,
    /// Place description, or the sentinel `"Unknown location"` when the
    /// source omits it.
    pub location: String,
    /// Milliseconds since the epoch.
    pub time: i64,
}

/// Mathematical content of an `EarthquakeInfo`.
pub ghost struct ObsView {
    pub magnitude_e7: i64,
    pub location: Seq<char>,
    pub time: i64,
}

impl View for EarthquakeInfo {
    type V = ObsView;

    open spec fn view(&self) -> ObsView {
        ObsView { magnitude_e7: self.magnitude_e7, location: self.location@, time: self.time }
    }
}

/// A magnitude the fixed-point scale can hold.
pub open spec fn mag_in_range(m: i64) -> bool {
    -1_000_000_000_000_000_000 < m < 1_000_000_000_000_000_000
}

/// The observation that a reveal's bytes stand for: the wire fields are
/// present and the magnitude text is an exactly representable decimal.
/// `None` means the reveal is malformed.
pub open spec fn obs_of(b: Seq<u8>) -> Option<ObsView> {
    match wire_fields_of(b) {
        None => None,
        Some((m, l, t)) => match parse_mag_e7(m) {
            None => None,
            Some(v) => Some(ObsView { magnitude_e7: v as i64, location: l, time: t }),
        },
    }
}

/// The executable observation option holds exactly the spec-level one.
pub open spec fn obs_opt_match(r: Option<EarthquakeInfo>, g: Option<ObsView>) -> bool {
    match (r, g) {
        (Some(o), Some(v)) => o@ == v,
        (None, None) => true,
        _ => false,
    }
}

/// A decodable reveal always carries an in-range magnitude.
pub proof fn lemma_obs_of_wf(b: Seq<u8>)
    ensures
        obs_of(b) matches Some(v) ==> mag_in_range(v.magnitude_e7),
{
    if wire_fields_of(b) is Some {
        let (m, l, t) = wire_fields_of(b).unwrap();
        lemma_parse_mag_bound(m);
    }
}

/// Decodes one reveal's bytes; `None` exactly when they are malformed.
pub fn decode_observation(bytes: &Vec<u8>) -> (r: Option<EarthquakeInfo>)
    ensures
        obs_opt_match(r, obs_of(bytes@)),
{
    match decode_wire_fields(bytes) {
        None => None,
        Some((m, l, t)) => {
            proof {
                lemma_parse_mag_bound(m@);
            }
            match parse_mag_e7_bytes(&m) {
                None => None,
                Some(v) => Some(EarthquakeInfo { magnitude_e7: v, location: l, time: t }),
            }
        },
    }
}

/// Serializes an observation to its wire bytes.
///
/// Round-trip law: decoding the produced bytes reproduces the exact
/// original magnitude, location and time (`obs_of(r@) == Some(o@)`).
pub fn encode_observation(o: &EarthquakeInfo) -> (r: Vec<u8>)
    requires
        mag_in_range(o.magnitude_e7),
    ensures
        r@ == encoded_wire_of(render_mag_e7(o.magnitude_e7 as int), o.location@, o.time),
        obs_of(r@) == Some(o@),
{
    let mag = render_mag_e7_bytes(o.magnitude_e7);
    proof {
        lemma_render_json_wf(o.magnitude_e7 as int);
        lemma_render_not_neg_zero(o.magnitude_e7 as int);
    }
    let r = encode_wire_fields(&mag, &o.location, o.time);
    proof {
        lemma_parse_render_roundtrip(o.magnitude_e7 as int);
        assert(json_number_wf(mag@));
        assert(wire_fields_of(r@) == Some((mag@, o.location@, o.time)));
    }
    r
}

} // verus!
