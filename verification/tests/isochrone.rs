use hrdf_parser::{CoordinateSystem, Coordinates};
use hrdf_routing_engine::isochrone::{
    adjust_departure_at, earliest_arrival, get_data, is_swiss_stop, isochrone_time_limits,
    keep_swiss_routes, origin_route, places_within, reachable_cells,
};
use hrdf_routing_engine::routing::models::{RouteResult, RouteSectionResult};
use hrdf_routing_engine::utils::{create_date_time, DateTime};

fn place(easting: f64, northing: f64) -> Coordinates {
    Coordinates::new(CoordinateSystem::LV95, easting, northing)
}

fn ride_to(stop_id: i32, lv95: Option<Coordinates>, departure_at: DateTime, arrival_at: DateTime) -> RouteResult {
    RouteResult::new(
        departure_at,
        arrival_at,
        vec![RouteSectionResult::new(
            Some(1),
            8_500_000,
            None,
            None,
            stop_id,
            lv95,
            None,
            Some(departure_at),
            Some(arrival_at),
            None,
        )],
    )
}

#[test]
fn swiss_stops_begin_with_85() {
    assert!(is_swiss_stop(8_587_418));
    assert!(is_swiss_stop(8_500_000));
    assert!(is_swiss_stop(85));
    assert!(is_swiss_stop(858));
    assert!(is_swiss_stop(850));
    assert!(is_swiss_stop(859_999_999));
}

#[test]
fn other_stops_do_not_begin_with_85() {
    assert!(!is_swiss_stop(1_185));
    assert!(!is_swiss_stop(7_000_085));
    assert!(!is_swiss_stop(8));
    assert!(!is_swiss_stop(84));
    assert!(!is_swiss_stop(86));
    assert!(!is_swiss_stop(8_400_085));
    assert!(!is_swiss_stop(0));
    assert!(!is_swiss_stop(-85));
    assert!(!is_swiss_stop(-8_587_418));
    assert!(!is_swiss_stop(i32::MAX));
}

#[test]
fn the_limits_of_a_map_are_the_multiples_of_its_interval() {
    assert_eq!(isochrone_time_limits(60, 20), vec![20, 40, 60]);
    assert_eq!(isochrone_time_limits(180, 60), vec![60, 120, 180]);
    assert_eq!(isochrone_time_limits(0, 20), Vec::<u32>::new());
}

#[test]
fn a_map_whose_limit_is_its_interval_has_one_isochrone() {
    assert_eq!(isochrone_time_limits(20, 20), vec![20]);
    assert_eq!(isochrone_time_limits(1, 1), vec![1]);
    assert_eq!(isochrone_time_limits(u32::MAX, u32::MAX), vec![u32::MAX]);
}

#[test]
fn the_walk_to_the_stop_is_taken_from_the_time_that_is_left() {
    let departure_at = create_date_time(2024, 6, 1, 12, 30);
    let (adjusted, left) = adjust_departure_at(departure_at, 3_600, 240);
    assert_eq!(adjusted, departure_at.add_seconds(240));
    assert_eq!(adjusted.seconds_since(departure_at), 240);
    assert_eq!(left, 3_360);
    let (same, all) = adjust_departure_at(departure_at, 3_600, 0);
    assert_eq!(same, departure_at);
    assert_eq!(all, 3_600);
}

#[test]
fn routes_to_stops_abroad_are_left_out() {
    let departure_at = create_date_time(2024, 6, 1, 12, 30);
    let arrival_at = create_date_time(2024, 6, 1, 13, 0);
    let routes = vec![
        ride_to(8_587_418, None, departure_at, arrival_at),
        ride_to(8_014_000, None, departure_at, arrival_at),
        ride_to(8_501_008, None, departure_at, arrival_at),
        ride_to(1_185, None, departure_at, arrival_at),
    ];
    let kept = keep_swiss_routes(routes);
    let stops: Vec<i32> = kept.iter().map(|route| route.sections()[0].arrival_stop_id()).collect();
    assert_eq!(stops, vec![8_587_418, 8_501_008]);
}

#[test]
fn the_origin_stands_for_itself_with_no_time_gone() {
    let departure_at = create_date_time(2024, 6, 1, 12, 30);
    let origin = origin_route(departure_at, place(2_500_000.0, 1_117_000.0));
    assert_eq!(origin.arrival_at(), departure_at);
    assert_eq!(origin.sections().len(), 1);
    assert!(origin.sections()[0].is_walking_trip());
    assert_eq!(origin.sections()[0].duration(), Some(0));
    let data = get_data(&vec![origin], departure_at);
    assert_eq!(data.len(), 1);
    assert_eq!(data[0].1, 0);
    assert_eq!(data[0].0.easting(), Some(2_500_000.0));
    assert_eq!(data[0].0.northing(), Some(1_117_000.0));
}

#[test]
fn each_place_comes_with_the_seconds_that_it_takes_to_get_there() {
    let departure_at = create_date_time(2024, 6, 1, 12, 30);
    let routes = vec![
        ride_to(8_500_001, Some(place(1.0, 2.0)), departure_at, create_date_time(2024, 6, 1, 12, 45)),
        ride_to(8_500_002, None, departure_at, create_date_time(2024, 6, 1, 12, 50)),
        ride_to(8_500_003, Some(place(3.0, 4.0)), departure_at, create_date_time(2024, 6, 2, 0, 30)),
    ];
    let data = get_data(&routes, departure_at);
    assert_eq!(data.len(), 2);
    assert_eq!(data[0].1, 900);
    assert_eq!(data[0].0.easting(), Some(1.0));
    assert_eq!(data[1].1, 43_200);
    assert_eq!(data[1].0.northing(), Some(4.0));
}

#[test]
fn places_within_a_limit_keep_the_time_that_is_left() {
    let data = vec![(place(1.0, 1.0), 0), (place(2.0, 2.0), 900), (place(3.0, 3.0), 1_200), (place(4.0, 4.0), 1_201)];
    let reached = places_within(&data, 1_200);
    assert_eq!(reached.len(), 3);
    assert_eq!(reached[0].1, 1_200);
    assert_eq!(reached[1].1, 300);
    assert_eq!(reached[2].1, 0);
    assert_eq!(reached[2].0.easting(), Some(3.0));
    assert!(places_within(&data, -1).is_empty());
}

#[test]
fn a_wider_limit_reaches_every_cell_that_a_narrower_one_reaches() {
    let durations = vec![0, 600, 1_200, 1_201, 2_400, 3_600, 7_200];
    let narrow = reachable_cells(&durations, 1_200);
    let wide = reachable_cells(&durations, 2_400);
    assert_eq!(narrow, vec![true, true, true, false, false, false, false]);
    assert_eq!(wide, vec![true, true, true, true, true, false, false]);
    for (near, far) in narrow.iter().zip(wide.iter()) {
        assert!(!near || *far);
    }
}

#[test]
fn the_earliest_arrival_is_the_least() {
    assert_eq!(earliest_arrival(&vec![]), None);
    assert_eq!(earliest_arrival(&vec![5]), Some(5));
    assert_eq!(earliest_arrival(&vec![900, 300, 600, 300]), Some(300));
    assert_eq!(earliest_arrival(&vec![-1, 0, i64::MIN]), Some(i64::MIN));
}
