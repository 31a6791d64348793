//! Execution phase: derive one canonical observation from a fetched source
//! document.
//!
//! The host performs the single fetch; this module takes the fetch outcome
//! (status and body) and makes every decision: reject a failed fetch,
//! reject a document without a feature list, reject an empty feature list,
//! require a magnitude and a timestamp on the first feature, fall back to a
//! sentinel when the place is missing, and serialize the observation.
use crate::decimal::lemma_parse_mag_bound;
use crate::decimal::parse_mag_e7;
use crate::decimal::parse_mag_e7_bytes;
use crate::decimal::render_mag_e7;
use crate::observation::encode_observation;
use crate::observation::obs_of;
use crate::observation::EarthquakeInfo;
use crate::observation::ObsView;
use crate::wire::encoded_wire_of;
use crate::wire::feature_fields;
use crate::wire::feature_fields_of;
use crate::wire::first_feature;
use crate::wire::geo_first_of;
use vstd::prelude::*;
use vstd::string::StringExecFns;

verus! {

/// Why the execution phase failed.
#[derive(Debug, PartialEq, Eq)]
pub enum ExecError {
    /// The fetch capability reported a non-success status.
    FetchFailed,
    /// The response is not a JSON document carrying a feature list.
    BadDocument,
    /// The document's feature list is empty.
    NoData,
    /// The first feature carries no usable magnitude: the field is missing,
    /// not a number, or not exactly representable at the fixed-point scale.
    NoMagnitude,
    /// The first feature carries no integer timestamp.
    NoTime,
}

/// The failure text reported to the host for each error.
pub open spec fn exec_error_text(e: ExecError) -> Seq<char> {
    match e {
        ExecError::FetchFailed => "Error while fetching earthquake data"@,
        ExecError::BadDocument => "Could not parse earthquake data"@,
        ExecError::NoData => "No earthquake data found"@,
        ExecError::NoMagnitude => "No magnitude in data"@,
        ExecError::NoTime => "No time in data"@,
    }
}

impl ExecError {
    /// The failure text reported to the host.
    pub fn message(&self) -> (r: String)
        ensures
            r@ == exec_error_text(*self),
    {
        match self {
            ExecError::FetchFailed => String::from_str("Error while fetching earthquake data"),
            ExecError::BadDocument => String::from_str("Could not parse earthquake data"),
            ExecError::NoData => String::from_str("No earthquake data found"),
            ExecError::NoMagnitude => String::from_str("No magnitude in data"),
            ExecError::NoTime => String::from_str("No time in data"),
        }
    }
}

/// The observation the execution phase owes for a fetch outcome, or the
/// error owed when none can be built.
pub open spec fn execution_result(ok: bool, b: Seq<u8>) -> Result<ObsView, ExecError> {
    if !ok {
        Err(ExecError::FetchFailed)
    } else {
        match geo_first_of(b) {
            None => Err(ExecError::BadDocument),
            Some(None) => Err(ExecError::NoData),
            Some(Some(fb)) => match feature_fields_of(fb) {
                (mag, place, time) => match mag {
                    None => Err(ExecError::NoMagnitude),
                    Some(mtext) => match parse_mag_e7(mtext) {
                        None => Err(ExecError::NoMagnitude),
                        Some(v) => match time {
                            None => Err(ExecError::NoTime),
                            Some(t) => Ok(
                                ObsView {
                                    magnitude_e7: v as i64,
                                    location: match place {
                                        Some(p) => p,
                                        None => "Unknown location"@,
                                    },
                                    time: t,
                                },
                            ),
                        },
                    },
                },
            },
        }
    }
}

/// The bytes the execution phase reports on success.
pub open spec fn execution_report(ok: bool, b: Seq<u8>) -> Result<Seq<u8>, ExecError> {
    match execution_result(ok, b) {
        Err(e) => Err(e),
        Ok(v) => Ok(encoded_wire_of(render_mag_e7(v.magnitude_e7 as int), v.location, v.time)),
    }
}

/// Law: the execution phase is idempotent per fixed external response: the
/// same fetch outcome always yields the same serialized observation bytes,
/// or the same error.
pub proof fn lemma_execution_deterministic(ok1: bool, b1: Seq<u8>, ok2: bool, b2: Seq<u8>)
    requires
        ok1 == ok2,
        b1 == b2,
    ensures
        execution_report(ok1, b1) == execution_report(ok2, b2),
{
}

/// Runs the execution phase's decisions on one fetch outcome, returning
/// the serialized observation or the owed error.
pub fn execution_phase(response_ok: bool, body: &Vec<u8>) -> (r: Result<Vec<u8>, ExecError>)
    ensures
        (match (r, execution_report(response_ok, body@)) {
            (Ok(bytes), Ok(sb)) => bytes@ == sb,
            (Err(e1), Err(e2)) => e1 == e2,
            _ => false,
        }),
        (match (r, execution_result(response_ok, body@)) {
            (Ok(bytes), Ok(v)) => obs_of(bytes@) == Some(v),
            (Err(e1), Err(e2)) => true,
            _ => false,
        }),
{
    if !response_ok {
        return Err(ExecError::FetchFailed);
    }
    match first_feature(body) {
        None => Err(ExecError::BadDocument),
        Some(None) => Err(ExecError::NoData),
        Some(Some(fb)) => {
            let (mag, place, time) = feature_fields(&fb);
            let mtext = match mag {
                Some(m) => m,
                None => {
                    return Err(ExecError::NoMagnitude);
                },
            };
            proof {
                lemma_parse_mag_bound(mtext@);
            }
            let v = match parse_mag_e7_bytes(&mtext) {
                Some(v) => v,
                None => {
                    return Err(ExecError::NoMagnitude);
                },
            };
            let t = match time {
                Some(t) => t,
                None => {
                    return Err(ExecError::NoTime);
                },
            };
            let location = match place {
                Some(p) => p,
                None => String::from_str("Unknown location"),
            };
            let info = EarthquakeInfo { magnitude_e7: v, location, time: t };
            let bytes = encode_observation(&info);
            Ok(bytes)
        },
    }
}

} // verus!
