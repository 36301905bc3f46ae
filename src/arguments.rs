use chrono::{Local, NaiveDateTime, TimeZone};
use vstd::prelude::*;

verus! {

/// The format of the start and end time parameters, read as local time.
pub const DATE_FORMAT: &'static str = "%Y-%m-%d %H:%M:%S";

/// A wall-clock date and time without a time zone.
#[verifier::external_type_specification]
#[verifier::external_body]
pub struct ExNaiveDateTime(chrono::NaiveDateTime);

/// Whether `s` reads as a date and time in the format `fmt`.
pub uninterp spec fn date_time_parses(s: Seq<char>, fmt: Seq<char>) -> bool;

/// Relies on chrono's `NaiveDateTime::parse_from_str`: whether `s` reads as a
/// date and time in the format `fmt` depends on the two strings alone.
#[verifier::external_body]
fn parse_naive_date_time(s: &str, fmt: &str) -> (r: Option<NaiveDateTime>)
    ensures
        r.is_some() == date_time_parses(s@, fmt@),
{
    NaiveDateTime::parse_from_str(s, fmt).ok()
}

/// Relies on chrono's `TimeZone::from_local_datetime` for `Local`, with
/// `MappedLocalTime::single` and `DateTime::timestamp_millis`: the instant, in
/// milliseconds since the Unix epoch, that a wall-clock time denotes in the
/// machine's time zone, when it denotes exactly one. It depends on the
/// machine, so nothing is promised of it.
#[verifier::external_body]
fn local_to_utc_millis(dt: &NaiveDateTime) -> (r: Option<i64>) {
    match Local.from_local_datetime(dt).single() {
        Some(t) => Some(t.timestamp_millis()),
        None => None,
    }
}

/// Why a time parameter could not be used.
#[derive(Clone, Copy, Debug, PartialEq, Eq, Structural)]
pub enum DateParamError {
    /// The text is not a date and time in `DATE_FORMAT`.
    Malformed,
    /// The local time does not exist, or exists twice, in the machine's time zone.
    NoSuchLocalTime,
}

/// What reading the optional time parameter `date_str` may give: nothing for
/// no parameter; `Malformed` exactly when the text does not parse; otherwise
/// an instant, or `NoSuchLocalTime` when the time zone has no single one.
pub open spec fn date_param_result(date_str: Option<String>, r: Result<Option<i64>, DateParamError>) -> bool {
    match date_str {
        None => r == Ok::<Option<i64>, DateParamError>(None),
        Some(s) => {
            &&& (r == Err::<Option<i64>, DateParamError>(DateParamError::Malformed)) == !date_time_parses(s@, DATE_FORMAT@)
            &&& (r matches Ok(Some(_)) || r == Err::<Option<i64>, DateParamError>(DateParamError::NoSuchLocalTime)
                || r == Err::<Option<i64>, DateParamError>(DateParamError::Malformed))
        },
    }
}

/// Reads an optional time parameter as an instant in milliseconds since the
/// Unix epoch.
pub fn get_date_parameter(date_str: &Option<String>) -> (r: Result<Option<i64>, DateParamError>)
    ensures
        date_param_result(*date_str, r),
{
    match date_str {
        None => Ok(None),
        Some(s) => match parse_naive_date_time(s.as_str(), DATE_FORMAT) {
            None => Err(DateParamError::Malformed),
            Some(dt) => match local_to_utc_millis(&dt) {
                None => Err(DateParamError::NoSuchLocalTime),
                Some(ms) => Ok(Some(ms)),
            },
        },
    }
}

/// The run's parameters.
pub struct Opts {
    /// The track file to read.
    pub gpx_file: String,
    /// The video file to write.
    pub dest_file: String,
    /// The first instant to show, as local time in `DATE_FORMAT`.
    pub start_dt: Option<String>,
    /// The last instant to show, as local time in `DATE_FORMAT`.
    pub end_dt: Option<String>,
    /// The side of the video frame, in pixels.
    pub map_image_size: u32,
    /// The map tiles' zoom level.
    pub zoom: u32,
    /// The directory that map tiles are stored in.
    pub tile_dir: String,
}

impl Opts {
    pub fn get_start_date(&self) -> (r: Result<Option<i64>, DateParamError>)
        ensures
            date_param_result(self.start_dt, r),
    {
        get_date_parameter(&self.start_dt)
    }

    pub fn get_end_date(&self) -> (r: Result<Option<i64>, DateParamError>)
        ensures
            date_param_result(self.end_dt, r),
    {
        get_date_parameter(&self.end_dt)
    }
}

} // verus!
