use hrdf_routing_engine::isochrone::models::DisplayMode;
use hrdf_routing_engine::service::{check_request, RequestError};
use hrdf_routing_engine::utils::create_date;

fn check(date: (i32, u32, u32), time_limit: u32, interval: u32, mode: &str) -> Result<DisplayMode, RequestError> {
    check_request(
        create_date(2023, 12, 10),
        create_date(2024, 12, 14),
        create_date(date.0, date.1, date.2),
        time_limit,
        interval,
        &mode.to_string(),
    )
}

#[test]
fn a_request_that_fits_is_answered_with_its_mode() {
    assert_eq!(check((2024, 6, 1), 60, 20, "circles"), Ok(DisplayMode::Circles));
    assert_eq!(check((2024, 6, 1), 60, 20, "contour_line"), Ok(DisplayMode::ContourLine));
    assert_eq!(check((2023, 12, 10), 20, 20, "circles"), Ok(DisplayMode::Circles));
    assert_eq!(check((2024, 12, 14), 0, 20, "circles"), Ok(DisplayMode::Circles));
}

#[test]
fn a_limit_that_is_no_multiple_of_the_interval_is_refused() {
    assert_eq!(check((2024, 6, 1), 61, 20, "contour_line"), Err(RequestError::IntervalMismatch));
    assert_eq!(check((2024, 6, 1), 10, 20, "circles"), Err(RequestError::IntervalMismatch));
}

#[test]
fn an_interval_of_nothing_is_refused() {
    assert_eq!(check((2024, 6, 1), 60, 0, "circles"), Err(RequestError::IntervalMismatch));
    assert_eq!(check((2024, 6, 1), 0, 0, "circles"), Err(RequestError::IntervalMismatch));
}

#[test]
fn a_day_outside_the_timetable_is_refused() {
    assert_eq!(check((2023, 12, 9), 60, 20, "circles"), Err(RequestError::DateOutOfRange));
    assert_eq!(check((2024, 12, 15), 60, 20, "circles"), Err(RequestError::DateOutOfRange));
}

#[test]
fn an_unknown_display_mode_is_refused() {
    assert_eq!(check((2024, 6, 1), 60, 20, "squares"), Err(RequestError::UnknownDisplayMode));
    assert_eq!(check((2024, 6, 1), 60, 20, "Circles"), Err(RequestError::UnknownDisplayMode));
    assert_eq!(check((2024, 6, 1), 60, 20, ""), Err(RequestError::UnknownDisplayMode));
}

#[test]
fn the_first_reason_to_refuse_is_given() {
    assert_eq!(check((2025, 6, 1), 61, 20, "squares"), Err(RequestError::DateOutOfRange));
    assert_eq!(check((2024, 6, 1), 61, 20, "squares"), Err(RequestError::IntervalMismatch));
}

#[test]
fn display_modes_are_found_by_their_names() {
    assert_eq!(DisplayMode::from_name(&"circles".to_string()), Some(DisplayMode::Circles));
    assert_eq!(DisplayMode::from_name(&"contour_line".to_string()), Some(DisplayMode::ContourLine));
    assert_eq!(DisplayMode::from_name(&"contour".to_string()), None);
}
