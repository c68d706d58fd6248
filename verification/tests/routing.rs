use hrdf_routing_engine::find_reachable_stops_within_time_limit;
use hrdf_routing_engine::plan_journey;
use hrdf_routing_engine::routing::connections::{
    get_connections, get_journeys, get_operating_journeys, keep_first_per_route, next_departures,
    sort_boardings,
};
use hrdf_routing_engine::routing::display::RouteLine;
use hrdf_routing_engine::routing::driver::{compute_routing, create_initial_routes};
use hrdf_routing_engine::routing::exchange::{
    exchange_time_at_stop, exchange_time_journey_pair, get_exchange_time,
};
use hrdf_routing_engine::routing::exploration::{
    can_explore_connections, explore_last_route_section_more_if_possible, explore_nearby_stops,
    explore_routes,
};
use hrdf_routing_engine::routing::models::{
    Route, RouteSection, RoutingAlgorithmArgs, RoutingAlgorithmMode,
};
use hrdf_routing_engine::routing::solutions::{
    can_continue_exploration_one_to_many, can_continue_exploration_one_to_one,
    can_improve_solution, is_improving_solution, update_arrival_stop,
};
use hrdf_routing_engine::routing::utils::{
    clone_update_route, get_routes_to_ignore, get_stop_connections, sort_routes, sorted_insert,
};
use hrdf_routing_engine::timetable::{
    BitField, ExchangeTimeAdministration, ExchangeTimeJourney, Journey, JourneyRouteEntry, Stop,
    StopConnection, Timetable,
};
use hrdf_routing_engine::utils::{create_date, create_date_time, create_time, DateTime, Time};
use rustc_hash::{FxHashMap, FxHashSet};

fn stop(id: i32, name: &str, exchange_point: bool, exchange_time: Option<(i16, i16)>) -> Stop {
    Stop {
        id,
        name: name.to_string(),
        lv95_coordinates: None,
        wgs84_coordinates: None,
        exchange_point,
        exchange_time,
    }
}

fn at(hour: u32, minute: u32) -> Option<Time> {
    Some(create_time(hour, minute))
}

fn call(stop_id: i32, arrival_time: Option<Time>, departure_time: Option<Time>) -> JourneyRouteEntry {
    JourneyRouteEntry { stop_id, arrival_time, departure_time }
}

fn journey(id: i32, administration: &str, designation: &str, bit_field_id: i32, route: Vec<JourneyRouteEntry>) -> Journey {
    Journey {
        id,
        administration: administration.to_string(),
        transport_designation: designation.to_string(),
        bit_field_id,
        route,
    }
}

/// A calendar that holds on the second of June only.
fn second_of_june() -> BitField {
    let mut bits = vec![0u8; 368];
    bits[2 + 153] = 1;
    BitField { id: 7, bits }
}

fn stops() -> Vec<Stop> {
    vec![
        stop(1, "A", true, None),
        stop(2, "B", false, None),
        stop(3, "C", true, Some((7, 4))),
        stop(4, "D", true, None),
        stop(5, "E", true, None),
        stop(6, "F", true, None),
        stop(9, "W", true, None),
    ]
}

fn journeys() -> Vec<Journey> {
    vec![
        journey(
            101,
            "000011",
            "R",
            0,
            vec![
                call(1, None, at(8, 0)),
                call(2, at(8, 10), at(8, 11)),
                call(3, at(8, 20), at(8, 22)),
                call(4, at(8, 40), None),
            ],
        ),
        journey(102, "000011", "R", 0, vec![call(3, None, at(8, 30)), call(5, at(8, 50), None)]),
        journey(
            103,
            "000011",
            "R",
            0,
            vec![
                call(1, None, at(9, 0)),
                call(2, at(9, 10), at(9, 11)),
                call(3, at(9, 20), at(9, 22)),
                call(4, at(9, 40), None),
            ],
        ),
        journey(104, "000022", "IC", 0, vec![call(5, None, at(9, 0)), call(6, at(9, 30), None)]),
        journey(105, "000022", "IC", 7, vec![call(1, None, at(7, 0)), call(6, at(7, 30), None)]),
        journey(
            106,
            "000011",
            "R",
            0,
            vec![call(1, None, at(23, 50)), call(3, at(0, 10), at(0, 12)), call(4, at(0, 30), None)],
        ),
    ]
}

fn timetable_with(exchange_times_journey: Vec<ExchangeTimeJourney>, exchange_times_administration: Vec<ExchangeTimeAdministration>) -> Timetable {
    Timetable::new(
        stops(),
        journeys(),
        vec![
            StopConnection { stop_id_1: 3, stop_id_2: 9, duration: 5 },
            StopConnection { stop_id_1: 1, stop_id_2: 9, duration: 30 },
            StopConnection { stop_id_1: 3, stop_id_2: 77, duration: 1 },
        ],
        vec![second_of_june()],
        exchange_times_journey,
        exchange_times_administration,
        (10, 2),
        create_date(2024, 1, 1),
        create_date(2024, 12, 31),
    )
    .unwrap()
}

fn timetable() -> Timetable {
    timetable_with(vec![], vec![])
}

fn first_of_june(hour: u32, minute: u32) -> DateTime {
    create_date_time(2024, 6, 1, hour, minute)
}

fn visited(stops: &[i32]) -> FxHashSet<i32> {
    stops.iter().copied().collect()
}

fn ride(journey_id: i32, from: i32, to: i32, arrival_at: DateTime) -> RouteSection {
    RouteSection::new(Some(journey_id), from, to, arrival_at, None)
}

fn walk(from: i32, to: i32, arrival_at: DateTime, minutes: i16) -> RouteSection {
    RouteSection::new(None, from, to, arrival_at, Some(minutes))
}

fn stops_of(route: &Route) -> Vec<(Option<i32>, i32, i32)> {
    route
        .sections()
        .iter()
        .map(|section| (section.journey_id(), section.departure_stop_id(), section.arrival_stop_id()))
        .collect()
}

// --- journeys that run ---------------------------------------------------

#[test]
fn journeys_run_on_the_days_of_their_calendar() {
    let timetable = timetable();
    assert_eq!(get_operating_journeys(&timetable, create_date(2024, 6, 1), 1), vec![101, 103, 106]);
    assert_eq!(get_operating_journeys(&timetable, create_date(2024, 6, 2), 1), vec![101, 103, 105, 106]);
    assert_eq!(get_operating_journeys(&timetable, create_date(2024, 6, 3), 6), vec![104]);
    assert_eq!(get_operating_journeys(&timetable, create_date(2024, 6, 2), 6), vec![104, 105]);
    assert_eq!(get_operating_journeys(&timetable, create_date(2024, 6, 1), 9), Vec::<i32>::new());
    assert_eq!(get_operating_journeys(&timetable, create_date(2024, 6, 1), 1234), Vec::<i32>::new());
}

#[test]
fn no_journey_runs_outside_the_timetable() {
    let timetable = timetable();
    assert_eq!(get_operating_journeys(&timetable, create_date(2023, 12, 31), 1), Vec::<i32>::new());
    assert_eq!(get_operating_journeys(&timetable, create_date(2025, 1, 1), 1), Vec::<i32>::new());
    assert_eq!(get_operating_journeys(&timetable, create_date(2024, 1, 1), 1), vec![101, 103, 106]);
    assert_eq!(get_operating_journeys(&timetable, create_date(2024, 12, 31), 1), vec![101, 103, 106]);
}

#[test]
fn the_rides_of_a_day_leave_out_the_journeys_that_end_at_the_stop() {
    let timetable = timetable();
    let (rides, latest) = get_journeys(&timetable, create_date(2024, 6, 1), 4);
    assert!(rides.is_empty());
    assert_eq!(latest, first_of_june(0, 0));
    let (rides, latest) = get_journeys(&timetable, create_date(2024, 6, 1), 3);
    assert_eq!(
        rides,
        vec![
            (101, first_of_june(8, 22)),
            (102, first_of_june(8, 30)),
            (103, first_of_june(9, 22)),
            (106, create_date_time(2024, 6, 2, 0, 12)),
        ]
    );
    assert_eq!(latest, create_date_time(2024, 6, 2, 0, 12));
}

// --- exchange times --------------------------------------------------------

#[test]
fn the_stop_says_how_long_a_change_takes() {
    let timetable = timetable();
    assert_eq!(get_exchange_time(&timetable, 3, 101, 102, first_of_june(8, 30)), 4);
    assert_eq!(get_exchange_time(&timetable, 3, 104, 105, first_of_june(8, 30)), 7);
    assert_eq!(get_exchange_time(&timetable, 3, 104, 101, first_of_june(8, 30)), 4);
}

#[test]
fn the_timetable_says_how_long_a_change_takes_where_the_stop_does_not() {
    let timetable = timetable();
    assert_eq!(get_exchange_time(&timetable, 5, 102, 104, first_of_june(9, 0)), 2);
    assert_eq!(get_exchange_time(&timetable, 5, 104, 105, first_of_june(9, 0)), 10);
    assert_eq!(get_exchange_time(&timetable, 1234, 104, 105, first_of_june(9, 0)), 10);
}

#[test]
fn an_entry_for_two_journeys_comes_first() {
    let entries = vec![
        ExchangeTimeJourney { stop_id: 3, journey_id_1: 101, journey_id_2: 103, duration: 1, bit_field_id: None },
        ExchangeTimeJourney { stop_id: 3, journey_id_1: 101, journey_id_2: 102, duration: 9, bit_field_id: None },
        ExchangeTimeJourney { stop_id: 3, journey_id_1: 101, journey_id_2: 102, duration: 11, bit_field_id: None },
    ];
    let administrations = vec![ExchangeTimeAdministration {
        stop_id: Some(3),
        administration_1: "000011".to_string(),
        administration_2: "000011".to_string(),
        duration: 6,
    }];
    let timetable = timetable_with(entries, administrations);
    assert_eq!(get_exchange_time(&timetable, 3, 101, 102, first_of_june(8, 30)), 9);
    assert_eq!(get_exchange_time(&timetable, 3, 101, 103, first_of_june(8, 30)), 1);
    assert_eq!(get_exchange_time(&timetable, 3, 102, 101, first_of_june(8, 30)), 6);
    assert_eq!(get_exchange_time(&timetable, 5, 101, 102, first_of_june(8, 30)), 2);
}

#[test]
fn an_entry_for_two_journeys_holds_on_the_days_of_its_calendar() {
    // The calendar of the sample holds at the index 155. Counted from the end
    // of the timetable, that is the 30th of July.
    let entries = vec![
        ExchangeTimeJourney { stop_id: 3, journey_id_1: 101, journey_id_2: 102, duration: 9, bit_field_id: Some(7) },
        ExchangeTimeJourney { stop_id: 3, journey_id_1: 101, journey_id_2: 102, duration: 12, bit_field_id: None },
    ];
    let timetable = timetable_with(entries, vec![]);
    let on = create_date_time(2024, 7, 31, 8, 30);
    assert_eq!(2 + (create_date(2024, 12, 31).days() - on.date().days()), 155);
    assert_eq!(exchange_time_journey_pair(&timetable, 3, 101, 102, on), Some(9));
    assert_eq!(exchange_time_journey_pair(&timetable, 3, 101, 102, first_of_june(8, 30)), Some(12));
    assert_eq!(exchange_time_journey_pair(&timetable, 3, 101, 102, create_date_time(2024, 6, 2, 8, 30)), Some(12));
    assert_eq!(exchange_time_journey_pair(&timetable, 3, 102, 101, on), None);
    assert_eq!(exchange_time_journey_pair(&timetable, 4, 101, 102, on), None);
}

#[test]
fn an_entry_with_a_calendar_does_not_hold_after_the_timetable() {
    let entries = vec![ExchangeTimeJourney { stop_id: 3, journey_id_1: 101, journey_id_2: 102, duration: 9, bit_field_id: Some(7) }];
    let timetable = timetable_with(entries, vec![]);
    assert_eq!(exchange_time_journey_pair(&timetable, 3, 101, 102, create_date_time(2025, 1, 1, 8, 30)), None);
    assert_eq!(exchange_time_journey_pair(&timetable, 3, 101, 102, create_date_time(2020, 1, 1, 8, 30)), None);
}

#[test]
fn an_entry_for_two_operators_at_the_stop_comes_before_the_stop() {
    let administrations = vec![
        ExchangeTimeAdministration {
            stop_id: None,
            administration_1: "000011".to_string(),
            administration_2: "000011".to_string(),
            duration: 8,
        },
        ExchangeTimeAdministration {
            stop_id: Some(3),
            administration_1: "000011".to_string(),
            administration_2: "000011".to_string(),
            duration: 6,
        },
        ExchangeTimeAdministration {
            stop_id: None,
            administration_1: "000011".to_string(),
            administration_2: "000022".to_string(),
            duration: 5,
        },
    ];
    let timetable = timetable_with(vec![], administrations);
    // At the stop C: the entry for the stop.
    assert_eq!(get_exchange_time(&timetable, 3, 101, 102, first_of_june(8, 30)), 6);
    // At the stop C, for other operators: the stop's own times.
    assert_eq!(get_exchange_time(&timetable, 3, 101, 104, first_of_june(8, 30)), 4);
    // At the stop E, which states no times: the entry for any stop.
    assert_eq!(get_exchange_time(&timetable, 5, 101, 102, first_of_june(8, 30)), 8);
    assert_eq!(get_exchange_time(&timetable, 5, 102, 104, first_of_june(8, 30)), 5);
    // No entry for the operators in this order: the times of the timetable.
    assert_eq!(get_exchange_time(&timetable, 5, 104, 102, first_of_june(8, 30)), 2);
    assert_eq!(get_exchange_time(&timetable, 5, 104, 105, first_of_june(8, 30)), 10);
}

#[test]
fn intercity_changes_have_their_own_time() {
    let intercity = "IC".to_string();
    let regional = "R".to_string();
    assert_eq!(exchange_time_at_stop((10, 2), &intercity, &intercity), 10);
    assert_eq!(exchange_time_at_stop((10, 2), &intercity, &regional), 2);
    assert_eq!(exchange_time_at_stop((10, 2), &regional, &intercity), 2);
    assert_eq!(exchange_time_at_stop((10, 2), &regional, &regional), 2);
    assert_eq!(exchange_time_at_stop((10, 2), &"ICE".to_string(), &intercity), 2);
    assert_eq!(exchange_time_at_stop((10, 2), &"ic".to_string(), &intercity), 2);
}

// --- next departures -------------------------------------------------------

#[test]
fn of_the_journeys_that_go_one_way_the_first_is_boarded() {
    let timetable = timetable();
    assert_eq!(
        next_departures(&timetable, 1, first_of_june(7, 55), None, None),
        vec![(101, first_of_june(8, 0))]
    );
    assert_eq!(
        next_departures(&timetable, 1, first_of_june(8, 1), None, None),
        vec![(103, first_of_june(9, 0))]
    );
}

#[test]
fn rides_are_looked_for_during_four_hours() {
    let timetable = timetable();
    assert_eq!(
        next_departures(&timetable, 1, first_of_june(4, 0), None, None),
        vec![(101, first_of_june(8, 0))]
    );
    assert_eq!(
        next_departures(&timetable, 1, first_of_june(5, 0), None, None),
        vec![(101, first_of_june(8, 0))]
    );
    assert_eq!(
        next_departures(&timetable, 5, first_of_june(5, 0), None, None),
        vec![(104, first_of_june(9, 0))]
    );
    assert_eq!(next_departures(&timetable, 5, first_of_june(4, 59), None, None), vec![]);
}

#[test]
fn rides_are_looked_for_until_eight_at_least() {
    let timetable = timetable();
    assert_eq!(
        next_departures(&timetable, 1, first_of_june(0, 30), None, None),
        vec![(101, first_of_june(8, 0))]
    );
    assert_eq!(next_departures(&timetable, 5, first_of_june(0, 30), None, None), vec![]);
}

#[test]
fn late_in_the_day_the_rides_of_the_next_morning_are_looked_at() {
    let timetable = timetable();
    assert_eq!(
        next_departures(&timetable, 1, first_of_june(22, 0), None, None),
        vec![
            (106, first_of_june(23, 50)),
            (105, create_date_time(2024, 6, 2, 7, 0)),
            (101, create_date_time(2024, 6, 2, 8, 0)),
        ]
    );
    // From 19:50 on the last ride of the day leaves within four hours.
    assert_eq!(
        next_departures(&timetable, 1, first_of_june(19, 50), None, None),
        vec![(106, first_of_june(23, 50))]
    );
    assert_eq!(
        next_departures(&timetable, 1, first_of_june(19, 51), None, None),
        vec![
            (106, first_of_june(23, 50)),
            (105, create_date_time(2024, 6, 2, 7, 0)),
            (101, create_date_time(2024, 6, 2, 8, 0)),
        ]
    );
}

#[test]
fn a_ride_that_leaves_at_the_instant_of_arrival_is_boarded() {
    let timetable = timetable();
    assert_eq!(
        next_departures(&timetable, 5, first_of_june(9, 0), None, None),
        vec![(104, first_of_june(9, 0))]
    );
    assert_eq!(
        next_departures(&timetable, 5, first_of_june(9, 1), None, None),
        vec![(104, create_date_time(2024, 6, 2, 9, 0))]
            .into_iter()
            .filter(|_| false)
            .collect::<Vec<(i32, DateTime)>>()
    );
}

#[test]
fn ways_to_ignore_are_not_gone() {
    let timetable = timetable();
    let way = timetable.find_journey(101).unwrap().hash_route(3).unwrap();
    let ignored: FxHashSet<u64> = [way].into_iter().collect();
    assert_eq!(
        next_departures(&timetable, 3, first_of_june(8, 20), Some(ignored), None),
        vec![(102, first_of_june(8, 30))]
    );
    assert_eq!(
        next_departures(&timetable, 3, first_of_june(8, 20), None, None),
        vec![(101, first_of_june(8, 22)), (102, first_of_june(8, 30))]
    );
}

#[test]
fn a_ride_that_leaves_before_the_change_is_made_is_not_boarded() {
    let timetable = timetable();
    // At C a change takes four minutes.
    assert_eq!(
        next_departures(&timetable, 3, first_of_june(8, 26), None, Some(101)),
        vec![(102, first_of_june(8, 30)), (103, first_of_june(9, 22))]
    );
    assert_eq!(
        next_departures(&timetable, 3, first_of_june(8, 27), None, Some(101)),
        vec![(103, first_of_june(9, 22))]
    );
    assert_eq!(
        next_departures(&timetable, 3, first_of_june(8, 27), None, None),
        vec![(102, first_of_june(8, 30)), (103, first_of_june(9, 22))]
    );
}

#[test]
fn a_ride_that_is_missed_still_stands_for_its_way() {
    let timetable = timetable();
    // The journey 101 leaves C at 08:22, too early for the change, and the
    // journey 103, which goes the same way later, is not boarded in its place.
    assert_eq!(
        next_departures(&timetable, 3, first_of_june(8, 20), None, Some(102)),
        vec![(102, first_of_june(8, 30))]
    );
}

#[test]
fn rides_are_put_in_the_order_of_their_departure() {
    let rides = vec![
        (1, first_of_june(9, 0)),
        (2, first_of_june(8, 0)),
        (3, first_of_june(9, 0)),
        (4, first_of_june(7, 0)),
        (5, first_of_june(8, 0)),
    ];
    assert_eq!(
        sort_boardings(&rides),
        vec![
            (4, first_of_june(7, 0)),
            (2, first_of_june(8, 0)),
            (5, first_of_june(8, 0)),
            (1, first_of_june(9, 0)),
            (3, first_of_june(9, 0)),
        ]
    );
    assert_eq!(sort_boardings(&vec![]), vec![]);
}

#[test]
fn the_first_ride_of_each_fingerprint_is_kept() {
    let rides = vec![
        (1, first_of_june(7, 0)),
        (2, first_of_june(8, 0)),
        (3, first_of_june(9, 0)),
        (4, first_of_june(10, 0)),
        (5, first_of_june(11, 0)),
    ];
    let ignored: FxHashSet<u64> = [40].into_iter().collect();
    assert_eq!(
        keep_first_per_route(&rides, &vec![10, 20, 10, 40, 20], ignored),
        vec![(1, first_of_june(7, 0)), (2, first_of_june(8, 0))]
    );
    assert_eq!(
        keep_first_per_route(&rides, &vec![10, 20, 30, 40, 50], FxHashSet::default()),
        rides
    );
    assert_eq!(keep_first_per_route(&vec![], &vec![], FxHashSet::default()), vec![]);
}

// --- routes ----------------------------------------------------------------

#[test]
fn a_route_is_copied_with_one_more_section() {
    let route = Route::new(vec![ride(101, 1, 3, first_of_june(8, 20))], visited(&[1, 2, 3]));
    let longer = clone_update_route(&route, walk(3, 9, first_of_june(8, 25), 5), false, &visited(&[9]));
    assert_eq!(stops_of(&longer), vec![(Some(101), 1, 3), (None, 3, 9)]);
    assert_eq!(longer.arrival_at(), first_of_june(8, 25));
    assert_eq!(longer.visited_stops(), &visited(&[1, 2, 3, 9]));
    assert_eq!(stops_of(&route), vec![(Some(101), 1, 3)]);
    assert_eq!(route.visited_stops(), &visited(&[1, 2, 3]));
}

#[test]
fn a_route_is_copied_with_its_last_section_carried_on() {
    let route = Route::new(vec![ride(101, 1, 3, first_of_june(8, 20))], visited(&[1, 2, 3]));
    let further = clone_update_route(&route, ride(101, 3, 4, first_of_june(8, 40)), true, &visited(&[4]));
    assert_eq!(stops_of(&further), vec![(Some(101), 1, 4)]);
    assert_eq!(further.arrival_at(), first_of_june(8, 40));
    assert_eq!(further.visited_stops(), &visited(&[1, 2, 3, 4]));
}

#[test]
fn a_route_knows_its_end_and_its_rides() {
    let route = Route::new(
        vec![
            walk(1, 9, first_of_june(8, 0), 30),
            ride(101, 9, 3, first_of_june(8, 20)),
            walk(3, 9, first_of_june(8, 25), 5),
        ],
        visited(&[1, 3, 9]),
    );
    assert_eq!(route.arrival_stop_id(), 9);
    assert_eq!(route.arrival_at(), first_of_june(8, 25));
    assert_eq!(route.count_connections(), 1);
    assert_eq!(route.sections_having_journey(), vec![ride(101, 9, 3, first_of_june(8, 20))]);
    assert!(route.has_visited_any_stops(&visited(&[7, 3])));
    assert!(!route.has_visited_any_stops(&visited(&[7, 8])));
    assert!(!route.has_visited_any_stops(&visited(&[])));
    assert_eq!(route.last_section().duration(), Some(5));
    let copy = route.clone();
    assert_eq!(stops_of(&copy), stops_of(&route));
    assert_eq!(copy.visited_stops(), route.visited_stops());
}

#[test]
fn a_section_is_changed_at_its_end_only() {
    let mut section = ride(101, 1, 3, first_of_june(8, 20));
    section.set_arrival_stop_id(4);
    section.set_arrival_at(first_of_june(8, 40));
    assert_eq!(section, ride(101, 1, 4, first_of_june(8, 40)));
    let mut route = Route::new(vec![walk(1, 9, first_of_june(8, 0), 30), ride(101, 9, 3, first_of_june(8, 20))], visited(&[1, 9]));
    route.set_last_arrival(4, first_of_june(8, 40));
    assert_eq!(stops_of(&route), vec![(None, 1, 9), (Some(101), 9, 4)]);
    assert_eq!(route.arrival_at(), first_of_june(8, 40));
}

#[test]
fn the_walks_that_leave_a_stop_are_listed_in_order() {
    let timetable = timetable();
    assert_eq!(
        get_stop_connections(&timetable, 3),
        Some(vec![
            StopConnection { stop_id_1: 3, stop_id_2: 9, duration: 5 },
            StopConnection { stop_id_1: 3, stop_id_2: 77, duration: 1 },
        ])
    );
    assert_eq!(get_stop_connections(&timetable, 1), Some(vec![StopConnection { stop_id_1: 1, stop_id_2: 9, duration: 30 }]));
    assert_eq!(get_stop_connections(&timetable, 9), None);
}

#[test]
fn the_ways_of_the_journeys_of_a_route_are_ignored_from_where_it_is() {
    let timetable = timetable();
    let route = Route::new(
        vec![ride(101, 1, 3, first_of_june(8, 20)), ride(102, 3, 5, first_of_june(8, 50))],
        visited(&[1, 2, 3, 5]),
    );
    let expected: FxHashSet<u64> = [timetable.find_journey(102).unwrap().hash_route(5).unwrap()].into_iter().collect();
    assert_eq!(get_routes_to_ignore(&timetable, &route), expected);
    let route = Route::new(vec![ride(101, 1, 3, first_of_june(8, 20)), walk(3, 9, first_of_june(8, 25), 5)], visited(&[1, 2, 3, 9]));
    assert!(get_routes_to_ignore(&timetable, &route).is_empty());
}

#[test]
fn a_route_is_put_behind_the_routes_that_arrive_no_later() {
    let mut routes = vec![
        Route::new(vec![ride(1, 1, 2, first_of_june(8, 0))], visited(&[])),
        Route::new(vec![ride(2, 1, 2, first_of_june(9, 0))], visited(&[])),
        Route::new(vec![ride(3, 1, 2, first_of_june(9, 0))], visited(&[])),
        Route::new(vec![ride(4, 1, 2, first_of_june(10, 0))], visited(&[])),
    ];
    sorted_insert(&mut routes, Route::new(vec![ride(5, 1, 2, first_of_june(9, 0))], visited(&[])));
    sorted_insert(&mut routes, Route::new(vec![ride(6, 1, 2, first_of_june(7, 0))], visited(&[])));
    sorted_insert(&mut routes, Route::new(vec![ride(7, 1, 2, first_of_june(11, 0))], visited(&[])));
    let order: Vec<Option<i32>> = routes.iter().map(|route| route.last_section().journey_id()).collect();
    assert_eq!(order, vec![Some(6), Some(1), Some(2), Some(3), Some(5), Some(4), Some(7)]);
}

#[test]
fn routes_that_arrive_together_keep_their_order() {
    let mut routes = vec![
        Route::new(vec![ride(1, 1, 2, first_of_june(9, 0))], visited(&[])),
        Route::new(vec![ride(2, 1, 2, first_of_june(8, 0))], visited(&[])),
        Route::new(vec![ride(3, 1, 2, first_of_june(9, 0))], visited(&[])),
        Route::new(vec![ride(4, 1, 2, first_of_june(8, 0))], visited(&[])),
        Route::new(vec![ride(5, 1, 2, first_of_june(7, 0))], visited(&[])),
    ];
    sort_routes(&mut routes);
    let order: Vec<Option<i32>> = routes.iter().map(|route| route.last_section().journey_id()).collect();
    assert_eq!(order, vec![Some(5), Some(2), Some(4), Some(1), Some(3)]);
    let mut none: Vec<Route> = vec![];
    sort_routes(&mut none);
    assert!(none.is_empty());
}

// --- growing a route ---------------------------------------------------------

#[test]
fn a_ride_ends_at_the_next_stop_where_passengers_can_change() {
    let timetable = timetable();
    let journey = timetable.find_journey(101).unwrap();
    let (section, passed) = RouteSection::find_next(&timetable, journey, 1, create_date(2024, 6, 1), true).unwrap();
    assert_eq!(section, ride(101, 1, 3, first_of_june(8, 20)));
    assert_eq!(passed, visited(&[2, 3]));
    let (section, passed) = RouteSection::find_next(&timetable, journey, 2, create_date(2024, 6, 1), true).unwrap();
    assert_eq!(section, ride(101, 2, 3, first_of_june(8, 20)));
    assert_eq!(passed, visited(&[3]));
    let (section, passed) = RouteSection::find_next(&timetable, journey, 3, create_date(2024, 6, 1), false).unwrap();
    assert_eq!(section, ride(101, 3, 4, first_of_june(8, 40)));
    assert_eq!(passed, visited(&[4]));
}

#[test]
fn no_ride_leaves_the_last_stop_or_a_stop_off_the_way() {
    let timetable = timetable();
    let journey = timetable.find_journey(101).unwrap();
    assert!(RouteSection::find_next(&timetable, journey, 4, create_date(2024, 6, 1), true).is_none());
    assert!(RouteSection::find_next(&timetable, journey, 5, create_date(2024, 6, 1), true).is_none());
    // At the first stop the journey does not arrive, so no day of arrival is known there.
    assert!(RouteSection::find_next(&timetable, journey, 1, create_date(2024, 6, 1), false).is_none());
}

#[test]
fn a_ride_across_midnight_arrives_on_the_next_day() {
    let timetable = timetable();
    let journey = timetable.find_journey(106).unwrap();
    let (section, _) = RouteSection::find_next(&timetable, journey, 1, create_date(2024, 6, 1), true).unwrap();
    assert_eq!(section, ride(106, 1, 3, create_date_time(2024, 6, 2, 0, 10)));
    let (section, _) = RouteSection::find_next(&timetable, journey, 3, create_date(2024, 6, 2), true).unwrap();
    assert_eq!(section, ride(106, 3, 4, create_date_time(2024, 6, 2, 0, 30)));
}

#[test]
fn a_route_is_extended_by_a_new_journey() {
    let timetable = timetable();
    let route = Route::new(vec![ride(101, 1, 3, first_of_june(8, 20))], visited(&[1, 2, 3]));
    let extended = route.extend(&timetable, 102, create_date(2024, 6, 1), true).unwrap();
    assert_eq!(stops_of(&extended), vec![(Some(101), 1, 3), (Some(102), 3, 5)]);
    assert_eq!(extended.arrival_at(), first_of_june(8, 50));
    assert_eq!(extended.visited_stops(), &visited(&[1, 2, 3, 5]));
}

#[test]
fn a_route_is_carried_on_along_its_journey() {
    let timetable = timetable();
    let route = Route::new(vec![ride(101, 1, 3, first_of_june(8, 20))], visited(&[1, 2, 3]));
    let extended = route.extend(&timetable, 101, create_date(2024, 6, 1), false).unwrap();
    assert_eq!(stops_of(&extended), vec![(Some(101), 1, 4)]);
    assert_eq!(extended.arrival_at(), first_of_june(8, 40));
    assert_eq!(extended.visited_stops(), &visited(&[1, 2, 3, 4]));
    assert!(extended.extend(&timetable, 101, create_date(2024, 6, 1), false).is_none());
}

#[test]
fn a_route_does_not_go_back_to_a_stop_where_it_has_been() {
    let timetable = timetable();
    let route = Route::new(vec![ride(102, 3, 5, first_of_june(8, 50))], visited(&[3, 4, 5]));
    assert!(route.extend(&timetable, 104, create_date(2024, 6, 1), true).is_some());
    let route = Route::new(vec![ride(102, 3, 5, first_of_june(8, 50))], visited(&[3, 5, 6]));
    assert!(route.extend(&timetable, 104, create_date(2024, 6, 1), true).is_none());
}

#[test]
fn a_route_may_go_back_to_the_stop_where_the_journey_begins() {
    let round = journey(
        110,
        "000011",
        "R",
        0,
        vec![call(1, None, at(10, 0)), call(2, at(10, 10), at(10, 12)), call(1, at(10, 20), None)],
    );
    let mut all = journeys();
    all.push(round);
    let timetable = Timetable::new(stops(), all, vec![], vec![second_of_june()], vec![], vec![], (10, 2), create_date(2024, 1, 1), create_date(2024, 12, 31)).unwrap();
    let route = Route::new(vec![walk(1, 2, first_of_june(10, 5), 5)], visited(&[1, 2]));
    let extended = route.extend(&timetable, 110, create_date(2024, 6, 1), true).unwrap();
    assert_eq!(stops_of(&extended), vec![(None, 1, 2), (Some(110), 2, 1)]);
    assert_eq!(extended.arrival_at(), first_of_june(10, 20));
}

#[test]
fn the_last_ride_of_a_route_is_ended_at_a_stop_on_its_way() {
    let timetable = timetable();
    let route = || Route::new(vec![ride(101, 1, 4, first_of_june(8, 40))], visited(&[1, 2, 3, 4]));
    let shorter = update_arrival_stop(&timetable, route(), 2).unwrap();
    assert_eq!(stops_of(&shorter), vec![(Some(101), 1, 2)]);
    assert_eq!(shorter.arrival_at(), first_of_june(8, 10));
    let shorter = update_arrival_stop(&timetable, route(), 3).unwrap();
    assert_eq!(shorter.arrival_at(), first_of_june(8, 20));
    let same = update_arrival_stop(&timetable, route(), 4).unwrap();
    assert_eq!(same.arrival_at(), first_of_june(8, 40));
    assert!(update_arrival_stop(&timetable, route(), 1).is_none());
    assert!(update_arrival_stop(&timetable, route(), 5).is_none());
    let part = Route::new(vec![ride(101, 2, 3, first_of_june(8, 20))], visited(&[2, 3]));
    assert!(update_arrival_stop(&timetable, part, 4).is_none());
}

#[test]
fn a_ride_is_ended_on_the_day_of_its_call() {
    let timetable = timetable();
    let route = Route::new(vec![ride(106, 1, 4, create_date_time(2024, 6, 2, 0, 30))], visited(&[1, 3, 4]));
    let shorter = update_arrival_stop(&timetable, route, 3).unwrap();
    assert_eq!(shorter.arrival_at(), create_date_time(2024, 6, 2, 0, 10));
}

// --- better routes -----------------------------------------------------------

#[test]
fn a_single_walk_is_no_route_to_a_stop() {
    let timetable = timetable();
    let candidate = Route::new(vec![walk(1, 9, first_of_june(8, 25), 30)], visited(&[1, 9]));
    assert!(!is_improving_solution(&timetable, &candidate, None));
    let known = Route::new(vec![ride(101, 1, 3, first_of_june(9, 0))], visited(&[1, 2, 3]));
    assert!(!is_improving_solution(&timetable, &candidate, Some(&known)));
}

#[test]
fn the_first_route_to_a_stop_is_kept() {
    let timetable = timetable();
    let candidate = Route::new(vec![ride(101, 1, 3, first_of_june(8, 20))], visited(&[1, 2, 3]));
    assert!(is_improving_solution(&timetable, &candidate, None));
}

#[test]
fn the_route_that_arrives_earlier_is_the_better() {
    let timetable = timetable();
    let early = Route::new(vec![ride(101, 1, 3, first_of_june(8, 20)), ride(102, 3, 5, first_of_june(8, 50))], visited(&[]));
    let late = Route::new(vec![ride(103, 1, 3, first_of_june(9, 20))], visited(&[]));
    assert!(is_improving_solution(&timetable, &early, Some(&late)));
    assert!(!is_improving_solution(&timetable, &late, Some(&early)));
}

#[test]
fn of_two_routes_that_arrive_together_the_one_with_fewer_rides_is_the_better() {
    let timetable = timetable();
    let direct = Route::new(vec![ride(101, 1, 4, first_of_june(8, 40))], visited(&[]));
    let changed = Route::new(vec![ride(101, 1, 3, first_of_june(8, 20)), ride(103, 3, 4, first_of_june(8, 40))], visited(&[]));
    let walked = Route::new(vec![walk(1, 9, first_of_june(8, 0), 5), ride(101, 1, 4, first_of_june(8, 40))], visited(&[]));
    assert!(is_improving_solution(&timetable, &direct, Some(&changed)));
    assert!(!is_improving_solution(&timetable, &changed, Some(&direct)));
    // A walk is no ride.
    assert!(!is_improving_solution(&timetable, &direct, Some(&walked)));
    assert!(!is_improving_solution(&timetable, &walked, Some(&direct)));
}

#[test]
fn of_two_routes_with_as_many_rides_the_one_that_passes_more_stops_is_the_better() {
    let timetable = timetable();
    // The journey 101 calls at four stops from 1 to 4, the journey 106 at three.
    let slow = Route::new(vec![ride(101, 1, 4, first_of_june(8, 40))], visited(&[]));
    let fast = Route::new(vec![ride(106, 1, 4, first_of_june(8, 40))], visited(&[]));
    assert!(is_improving_solution(&timetable, &slow, Some(&fast)));
    assert!(!is_improving_solution(&timetable, &fast, Some(&slow)));
    assert!(!is_improving_solution(&timetable, &slow, Some(&slow)));
    // The first rides that differ decide.
    let first = Route::new(vec![ride(106, 1, 3, first_of_june(8, 20)), ride(101, 3, 4, first_of_june(8, 40))], visited(&[]));
    let second = Route::new(vec![ride(101, 1, 3, first_of_june(8, 20)), ride(106, 3, 4, first_of_june(8, 40))], visited(&[]));
    assert!(is_improving_solution(&timetable, &second, Some(&first)));
    assert!(!is_improving_solution(&timetable, &first, Some(&second)));
}

#[test]
fn a_route_that_arrives_no_later_may_still_lead_to_a_better_route() {
    let route = Route::new(vec![ride(101, 1, 3, first_of_june(8, 20))], visited(&[]));
    let known = Route::new(vec![ride(103, 1, 4, first_of_june(8, 20))], visited(&[]));
    let better = Route::new(vec![ride(103, 1, 4, first_of_june(8, 19))], visited(&[]));
    assert!(can_improve_solution(&route, None));
    assert!(can_improve_solution(&route, Some(&known)));
    assert!(!can_improve_solution(&route, Some(&better)));
}

// --- looking at a route --------------------------------------------------

#[test]
fn a_route_that_has_reached_the_stop_is_kept_and_not_followed() {
    let timetable = timetable();
    let mut solutions: FxHashMap<i32, Route> = FxHashMap::default();
    let route = Route::new(vec![ride(101, 1, 4, first_of_june(8, 40))], visited(&[1, 2, 3, 4]));
    assert!(!can_continue_exploration_one_to_one(&timetable, &route, &mut solutions, 3));
    assert_eq!(stops_of(&solutions[&3]), vec![(Some(101), 1, 3)]);
    assert_eq!(solutions[&3].arrival_at(), first_of_june(8, 20));
    assert_eq!(solutions.len(), 1);
    // A route that has not reached the stop is followed while it is no later.
    let other = Route::new(vec![walk(1, 9, first_of_june(8, 20), 25)], visited(&[1, 9]));
    assert!(can_continue_exploration_one_to_one(&timetable, &other, &mut solutions, 3));
    let late = Route::new(vec![walk(1, 9, first_of_june(8, 21), 26)], visited(&[1, 9]));
    assert!(!can_continue_exploration_one_to_one(&timetable, &late, &mut solutions, 3));
    assert_eq!(solutions.len(), 1);
}

#[test]
fn every_stop_of_the_last_ride_is_reached() {
    let timetable = timetable();
    let mut solutions: FxHashMap<i32, Route> = FxHashMap::default();
    let route = Route::new(vec![ride(101, 1, 4, first_of_june(8, 40))], visited(&[1, 2, 3, 4]));
    assert!(can_continue_exploration_one_to_many(&timetable, &route, &mut solutions, first_of_june(9, 0)));
    let mut reached: Vec<i32> = solutions.keys().copied().collect();
    reached.sort();
    assert_eq!(reached, vec![2, 3, 4]);
    assert_eq!(solutions[&2].arrival_at(), first_of_june(8, 10));
    assert_eq!(solutions[&4].arrival_at(), first_of_june(8, 40));
}

#[test]
fn stops_that_are_reached_after_the_limit_are_left_out() {
    let timetable = timetable();
    let mut solutions: FxHashMap<i32, Route> = FxHashMap::default();
    let route = Route::new(vec![ride(101, 1, 4, first_of_june(8, 40))], visited(&[1, 2, 3, 4]));
    assert!(!can_continue_exploration_one_to_many(&timetable, &route, &mut solutions, first_of_june(8, 20)));
    let mut reached: Vec<i32> = solutions.keys().copied().collect();
    reached.sort();
    assert_eq!(reached, vec![2, 3]);
    let mut solutions: FxHashMap<i32, Route> = FxHashMap::default();
    assert!(!can_continue_exploration_one_to_many(&timetable, &route, &mut solutions, first_of_june(8, 40)));
    assert_eq!(solutions.len(), 3);
}

#[test]
fn the_earliest_arrival_at_a_stop_is_noted() {
    let timetable = timetable();
    let mut earliest: FxHashMap<i32, DateTime> = FxHashMap::default();
    let route = Route::new(vec![ride(101, 1, 3, first_of_june(8, 20))], visited(&[1, 2, 3]));
    assert!(can_explore_connections(&timetable, &route, &mut earliest));
    assert_eq!(earliest[&3], first_of_june(8, 20));
    assert!(!can_explore_connections(&timetable, &route, &mut earliest));
    let earlier = Route::new(vec![ride(103, 1, 3, first_of_june(8, 19))], visited(&[1, 2, 3]));
    assert!(can_explore_connections(&timetable, &earlier, &mut earliest));
    assert_eq!(earliest[&3], first_of_june(8, 19));
    // At B passengers cannot change.
    let at_b = Route::new(vec![ride(101, 1, 2, first_of_june(8, 10))], visited(&[1, 2]));
    assert!(!can_explore_connections(&timetable, &at_b, &mut earliest));
    assert!(!earliest.contains_key(&2));
    // An unknown stop is no place to change.
    let nowhere = Route::new(vec![walk(3, 77, first_of_june(8, 21), 1)], visited(&[3, 77]));
    assert!(!can_explore_connections(&timetable, &nowhere, &mut earliest));
}

#[test]
fn a_route_is_carried_on_to_the_routes_to_look_at() {
    let timetable = timetable();
    let mut routes = vec![
        Route::new(vec![walk(1, 9, first_of_june(8, 25), 30)], visited(&[1, 9])),
        Route::new(vec![ride(103, 1, 3, first_of_june(9, 20))], visited(&[1, 2, 3])),
    ];
    let route = Route::new(vec![ride(101, 1, 3, first_of_june(8, 20))], visited(&[1, 2, 3]));
    explore_last_route_section_more_if_possible(&timetable, &route, &mut routes);
    assert_eq!(routes.len(), 3);
    assert_eq!(stops_of(&routes[1]), vec![(Some(101), 1, 4)]);
    assert_eq!(routes[1].arrival_at(), first_of_june(8, 40));
    let on_foot = Route::new(vec![walk(1, 9, first_of_june(8, 25), 30)], visited(&[1, 9]));
    explore_last_route_section_more_if_possible(&timetable, &on_foot, &mut routes);
    assert_eq!(routes.len(), 3);
}

#[test]
fn a_route_is_carried_on_by_the_walks_to_new_stops_of_the_timetable() {
    let timetable = timetable();
    let mut routes = vec![Route::new(vec![walk(1, 9, first_of_june(8, 25), 30)], visited(&[1, 9]))];
    let route = Route::new(vec![ride(101, 1, 3, first_of_june(8, 20))], visited(&[1, 2, 3]));
    explore_nearby_stops(&timetable, &route, &mut routes);
    // The walk to the stop 77, which the timetable does not know, is left out.
    assert_eq!(routes.len(), 2);
    assert_eq!(stops_of(&routes[1]), vec![(Some(101), 1, 3), (None, 3, 9)]);
    assert_eq!(routes[1].arrival_at(), first_of_june(8, 25));
    assert_eq!(routes[1].last_section().duration(), Some(5));
    assert_eq!(routes[1].visited_stops(), &visited(&[1, 2, 3, 9]));
    // No walk to a stop where the route has been, and none after a walk.
    let been = Route::new(vec![ride(101, 1, 3, first_of_june(8, 20))], visited(&[1, 2, 3, 9]));
    explore_nearby_stops(&timetable, &been, &mut routes);
    assert_eq!(routes.len(), 2);
    let on_foot = Route::new(vec![ride(101, 1, 2, first_of_june(8, 10)), walk(2, 3, first_of_june(8, 15), 5)], visited(&[1, 2, 3]));
    explore_nearby_stops(&timetable, &on_foot, &mut routes);
    assert_eq!(routes.len(), 2);
}

#[test]
fn a_route_is_extended_by_the_journeys_that_it_can_board() {
    let timetable = timetable();
    let route = Route::new(vec![ride(101, 1, 3, first_of_june(8, 20))], visited(&[1, 2, 3]));
    let connections = get_connections(&timetable, &route, &visited(&[101]));
    assert_eq!(connections.len(), 1);
    assert_eq!(stops_of(&connections[0]), vec![(Some(101), 1, 3), (Some(102), 3, 5)]);
    assert!(get_connections(&timetable, &route, &visited(&[101, 102])).is_empty());
}

#[test]
fn a_search_begins_with_the_rides_and_the_walks_from_the_stop() {
    let timetable = timetable();
    let routes = create_initial_routes(&timetable, 1, first_of_june(7, 55));
    assert_eq!(routes.len(), 2);
    assert_eq!(stops_of(&routes[0]), vec![(Some(101), 1, 3)]);
    assert_eq!(routes[0].arrival_at(), first_of_june(8, 20));
    assert_eq!(routes[0].visited_stops(), &visited(&[1, 2, 3]));
    assert_eq!(stops_of(&routes[1]), vec![(None, 1, 9)]);
    assert_eq!(routes[1].arrival_at(), first_of_june(8, 25));
    assert_eq!(routes[1].last_section().duration(), Some(30));
    assert_eq!(routes[1].visited_stops(), &visited(&[1, 9]));
}

#[test]
fn a_round_finds_the_routes_of_the_next_round() {
    let timetable = timetable();
    let routes = create_initial_routes(&timetable, 1, first_of_june(7, 55));
    let mut journeys_to_ignore = visited(&[101]);
    let mut earliest: FxHashMap<i32, DateTime> = FxHashMap::default();
    let mut solutions: FxHashMap<i32, Route> = FxHashMap::default();
    let args = RoutingAlgorithmArgs::solve_from_departure_stop_to_arrival_stop(4);
    let found = explore_routes(&timetable, routes, &mut journeys_to_ignore, &mut earliest, &mut solutions, &args);
    assert_eq!(found.len(), 1);
    assert_eq!(stops_of(&found[0]), vec![(Some(101), 1, 3), (Some(102), 3, 5)]);
    assert_eq!(journeys_to_ignore, visited(&[101, 102]));
    assert_eq!(stops_of(&solutions[&4]), vec![(Some(101), 1, 4)]);
    assert_eq!(earliest[&3], first_of_june(8, 20));
    assert_eq!(earliest[&9], first_of_june(8, 25));
    assert!(!earliest.contains_key(&4));
}

#[test]
fn a_round_forgets_no_arrival_and_only_lowers_it() {
    let timetable = timetable();
    let routes = create_initial_routes(&timetable, 1, first_of_june(7, 55));
    let mut journeys_to_ignore = visited(&[101]);
    let mut earliest: FxHashMap<i32, DateTime> = FxHashMap::default();
    earliest.insert(3, first_of_june(8, 10));
    earliest.insert(9, first_of_june(9, 0));
    earliest.insert(77, first_of_june(7, 0));
    let before = earliest.clone();
    let mut solutions: FxHashMap<i32, Route> = FxHashMap::default();
    let args = RoutingAlgorithmArgs::solve_from_departure_stop_to_arrival_stop(4);
    let found = explore_routes(&timetable, routes, &mut journeys_to_ignore, &mut earliest, &mut solutions, &args);
    for (stop_id, arrival_at) in before.iter() {
        assert!(earliest[stop_id] <= *arrival_at);
    }
    // A route was at the stop 3 before: no journey is boarded there at 08:20.
    assert_eq!(earliest[&3], first_of_june(8, 10));
    assert!(found.is_empty());
    // The walk is at the stop 9 earlier than the arrival known there.
    assert_eq!(earliest[&9], first_of_june(8, 25));
    assert_eq!(earliest[&77], first_of_june(7, 0));
    assert_eq!(stops_of(&solutions[&4]), vec![(Some(101), 1, 4)]);
}

#[test]
fn a_round_replaces_a_route_by_a_better_one_only() {
    let timetable = timetable();
    let args = RoutingAlgorithmArgs::solve_from_departure_stop_to_arrival_stop(4);
    let known = Route::new(vec![ride(101, 1, 4, first_of_june(8, 30))], visited(&[1, 2, 3, 4]));
    for (recorded, kept) in [(first_of_june(8, 30), true), (first_of_june(9, 30), false)] {
        let mut solutions: FxHashMap<i32, Route> = FxHashMap::default();
        let mut route = known.clone();
        route.last_section_mut().set_arrival_at(recorded);
        solutions.insert(4, route);
        let mut journeys_to_ignore = visited(&[101]);
        let mut earliest: FxHashMap<i32, DateTime> = FxHashMap::default();
        let routes = create_initial_routes(&timetable, 1, first_of_june(7, 55));
        explore_routes(&timetable, routes, &mut journeys_to_ignore, &mut earliest, &mut solutions, &args);
        assert!(solutions[&4].arrival_at() <= recorded);
        assert_eq!(solutions[&4].arrival_at() == recorded, kept);
    }
}

// --- whole searches ------------------------------------------------------

#[test]
fn the_fastest_route_stays_on_the_journey() {
    let timetable = timetable();
    let route = plan_journey(&timetable, 1, 4, first_of_june(7, 55)).unwrap();
    assert_eq!(route.departure_at(), first_of_june(8, 0));
    assert_eq!(route.arrival_at(), first_of_june(8, 40));
    assert_eq!(route.sections().len(), 1);
    let section = &route.sections()[0];
    assert_eq!(section.journey_id(), Some(101));
    assert_eq!(section.departure_stop_id(), 1);
    assert_eq!(section.arrival_stop_id(), 4);
    assert_eq!(section.departure_at(), Some(first_of_june(8, 0)));
    assert_eq!(section.arrival_at(), Some(first_of_june(8, 40)));
    assert_eq!(section.duration(), None);
    assert!(!section.is_walking_trip());
}

#[test]
fn a_route_changes_where_it_has_to() {
    let timetable = timetable();
    let route = plan_journey(&timetable, 1, 6, first_of_june(7, 55)).unwrap();
    assert_eq!(route.departure_at(), first_of_june(8, 0));
    assert_eq!(route.arrival_at(), first_of_june(9, 30));
    let legs: Vec<(Option<i32>, i32, i32, Option<DateTime>, Option<DateTime>)> = route
        .sections()
        .iter()
        .map(|section| {
            (
                section.journey_id(),
                section.departure_stop_id(),
                section.arrival_stop_id(),
                section.departure_at(),
                section.arrival_at(),
            )
        })
        .collect();
    assert_eq!(
        legs,
        vec![
            (Some(101), 1, 3, Some(first_of_june(8, 0)), Some(first_of_june(8, 20))),
            (Some(102), 3, 5, Some(first_of_june(8, 30)), Some(first_of_june(8, 50))),
            (Some(104), 5, 6, Some(first_of_june(9, 0)), Some(first_of_june(9, 30))),
        ]
    );
}

#[test]
fn a_direct_journey_is_taken_on_the_day_on_which_it_runs() {
    let timetable = timetable();
    let route = plan_journey(&timetable, 1, 6, create_date_time(2024, 6, 2, 6, 55)).unwrap();
    assert_eq!(route.sections().len(), 1);
    assert_eq!(route.sections()[0].journey_id(), Some(105));
    assert_eq!(route.arrival_at(), create_date_time(2024, 6, 2, 7, 30));
}

#[test]
fn a_route_across_midnight_keeps_its_days() {
    let timetable = timetable();
    let route = plan_journey(&timetable, 1, 4, first_of_june(22, 0)).unwrap();
    assert_eq!(route.departure_at(), first_of_june(23, 50));
    assert_eq!(route.arrival_at(), create_date_time(2024, 6, 2, 0, 30));
    assert_eq!(route.sections().len(), 1);
    assert_eq!(route.sections()[0].journey_id(), Some(106));
}

#[test]
fn a_stop_that_cannot_be_reached_has_no_route() {
    let timetable = timetable();
    assert!(plan_journey(&timetable, 4, 1, first_of_june(7, 55)).is_none());
    assert!(plan_journey(&timetable, 1, 1234, first_of_june(7, 55)).is_none());
    assert!(plan_journey(&timetable, 1234, 4, first_of_june(7, 55)).is_none());
}

#[test]
fn the_stop_of_departure_has_no_route_to_itself() {
    let timetable = timetable();
    assert!(plan_journey(&timetable, 1, 1, first_of_june(7, 55)).is_none());
    assert!(plan_journey(&timetable, 3, 3, first_of_june(7, 55)).is_none());
}

#[test]
fn a_stop_that_is_reached_on_foot_at_last_has_a_route() {
    let timetable = timetable();
    let route = plan_journey(&timetable, 1, 9, first_of_june(7, 55)).unwrap();
    let legs: Vec<(Option<i32>, i32, i32)> = route
        .sections()
        .iter()
        .map(|section| (section.journey_id(), section.departure_stop_id(), section.arrival_stop_id()))
        .collect();
    assert_eq!(legs, vec![(Some(101), 1, 3), (None, 3, 9)]);
    assert!(route.sections()[1].is_walking_trip());
    assert_eq!(route.sections()[1].duration(), Some(5));
    assert_eq!(route.sections()[1].departure_at(), None);
    assert_eq!(route.sections()[1].arrival_at(), None);
    // The route counts from the departure of its first ride to the arrival at
    // its last stop: the ride arrives at 08:20, the walk takes five minutes.
    assert_eq!(route.departure_at(), first_of_june(8, 0));
    assert_eq!(route.sections()[0].arrival_at(), Some(first_of_june(8, 20)));
    assert_eq!(route.arrival_at(), first_of_june(8, 25));
}

#[test]
fn the_stops_within_an_hour_are_reached() {
    let timetable = timetable();
    let routes = find_reachable_stops_within_time_limit(&timetable, 1, first_of_june(7, 55), 3_600);
    let mut reached: Vec<(i32, DateTime)> = routes
        .iter()
        .map(|route| (route.sections()[route.sections().len() - 1].arrival_stop_id(), route.arrival_at()))
        .collect();
    reached.sort();
    assert_eq!(
        reached,
        vec![
            (2, first_of_june(8, 10)),
            (3, first_of_june(8, 20)),
            (4, first_of_june(8, 40)),
            (5, first_of_june(8, 50)),
            (9, first_of_june(8, 25)),
        ]
    );
    for route in routes.iter() {
        assert!(route.arrival_at() <= first_of_june(8, 55));
        assert!(route.departure_at() >= first_of_june(7, 55));
    }
}

#[test]
fn more_time_reaches_more_stops() {
    let timetable = timetable();
    let count = |seconds: i64| find_reachable_stops_within_time_limit(&timetable, 1, first_of_june(7, 55), seconds).len();
    assert_eq!(count(14 * 60), 0);
    assert_eq!(count(15 * 60), 1);
    assert_eq!(count(25 * 60), 2);
    assert_eq!(count(30 * 60), 3);
    assert_eq!(count(45 * 60), 4);
    assert_eq!(count(60 * 60), 5);
    assert_eq!(count(95 * 60), 6);
    assert_eq!(count(10 * 3_600), 6);
}

#[test]
fn no_time_reaches_no_stop() {
    let timetable = timetable();
    assert!(find_reachable_stops_within_time_limit(&timetable, 1, first_of_june(7, 55), 0).is_empty());
    assert!(find_reachable_stops_within_time_limit(&timetable, 1, first_of_june(7, 55), -600).is_empty());
    assert!(find_reachable_stops_within_time_limit(&timetable, 4, first_of_june(7, 55), 3_600).is_empty());
}

#[test]
fn a_search_is_told_what_to_find() {
    let to_stop = RoutingAlgorithmArgs::solve_from_departure_stop_to_arrival_stop(4);
    assert!(to_stop.mode() == RoutingAlgorithmMode::SolveFromDepartureStopToArrivalStop);
    assert_eq!(to_stop.arrival_stop_id(), 4);
    let within = RoutingAlgorithmArgs::solve_from_departure_stop_to_reachable_arrival_stops(first_of_june(9, 0));
    assert!(within.mode() == RoutingAlgorithmMode::SolveFromDepartureStopToReachableArrivalStops);
    assert_eq!(within.time_limit(), first_of_june(9, 0));
    let timetable = timetable();
    let results = compute_routing(&timetable, 1, first_of_june(7, 55), to_stop);
    assert_eq!(results.len(), 1);
    assert_eq!(results[&4].arrival_at(), first_of_june(8, 40));
    let results = compute_routing(&timetable, 1, first_of_june(7, 55), within);
    assert_eq!(results.len(), 5);
    assert!(results.contains_key(&9));
    assert!(!results.contains_key(&6));
}

// --- telling a route -------------------------------------------------------

#[test]
fn a_route_is_told_line_by_line() {
    let timetable = timetable();
    let route = plan_journey(&timetable, 1, 9, first_of_june(7, 55)).unwrap();
    assert_eq!(
        route.describe(&timetable),
        vec![
            RouteLine::Journey { journey_id: 101 },
            RouteLine::Departure { departure_at: first_of_june(8, 0) },
            RouteLine::Call { stop_id: 1, arrival_time: None, departure_time: at(8, 0) },
            RouteLine::Call { stop_id: 2, arrival_time: at(8, 10), departure_time: at(8, 11) },
            RouteLine::Call { stop_id: 3, arrival_time: at(8, 20), departure_time: None },
            RouteLine::Arrival { arrival_at: first_of_june(8, 20) },
            RouteLine::Walk { minutes: 5, stop_id: 9 },
        ]
    );
}
