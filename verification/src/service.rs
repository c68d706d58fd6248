//! What is asked of a request for an isochrone map before it is answered.
use crate::isochrone::models::DisplayMode;
use crate::utils::Date;
use vstd::prelude::*;

verus! {

/// Why a request is refused.
#[derive(Clone, Copy, Debug, PartialEq, Eq, Structural)]
pub enum RequestError {
    /// The day of departure is not a day of the timetable.
    DateOutOfRange,
    /// The limit of the map is not a multiple of the interval.
    IntervalMismatch,
    /// The display mode has no such name.
    UnknownDisplayMode,
}

/// Whether `time_limit` is a multiple of `isochrone_interval`.
pub open spec fn is_multiple(time_limit: u32, isochrone_interval: u32) -> bool {
    isochrone_interval != 0 && time_limit % isochrone_interval == 0
}

/// What a request is answered with before any map is drawn: its display mode,
/// or the first reason to refuse it.
pub open spec fn check_request_spec(
    start_date: Date,
    end_date: Date,
    departure_date: Date,
    time_limit: u32,
    isochrone_interval: u32,
    display_mode: Seq<char>,
) -> Result<DisplayMode, RequestError> {
    if departure_date.days < start_date.days || departure_date.days > end_date.days {
        Err(RequestError::DateOutOfRange)
    } else if !is_multiple(time_limit, isochrone_interval) {
        Err(RequestError::IntervalMismatch)
    } else {
        match DisplayMode::named(display_mode) {
            Some(mode) => Ok(mode),
            None => Err(RequestError::UnknownDisplayMode),
        }
    }
}

/// Checks a request for an isochrone map against the days of the timetable:
/// the day of departure is one of them, the limit of the map is a multiple of
/// the interval, and the display mode is `circles` or `contour_line`.
pub fn check_request(
    start_date: Date,
    end_date: Date,
    departure_date: Date,
    time_limit: u32,
    isochrone_interval: u32,
    display_mode: &String,
) -> (checked: Result<DisplayMode, RequestError>)
    ensures
        checked == check_request_spec(
            start_date,
            end_date,
            departure_date,
            time_limit,
            isochrone_interval,
            display_mode@,
        ),
{
    if departure_date.days < start_date.days || departure_date.days > end_date.days {
        return Err(RequestError::DateOutOfRange);
    }
    if isochrone_interval == 0 || time_limit % isochrone_interval != 0 {
        return Err(RequestError::IntervalMismatch);
    }
    match DisplayMode::from_name(display_mode) {
        Some(mode) => Ok(mode),
        None => Err(RequestError::UnknownDisplayMode),
    }
}

} // verus!
