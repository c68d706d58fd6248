use hrdf_routing_engine::timetable::{
    BitField, ExchangeTimeJourney, Journey, JourneyRouteEntry, Stop, StopConnection, Timetable,
};
use hrdf_routing_engine::utils::{create_date, create_date_time, create_time, Date, Time};

fn stop(id: i32, exchange_point: bool) -> Stop {
    Stop {
        id,
        name: format!("Stop {}", id),
        lv95_coordinates: None,
        wgs84_coordinates: None,
        exchange_point,
        exchange_time: None,
    }
}

fn at(hour: u32, minute: u32) -> Option<Time> {
    Some(create_time(hour, minute))
}

fn call(stop_id: i32, arrival_time: Option<Time>, departure_time: Option<Time>) -> JourneyRouteEntry {
    JourneyRouteEntry { stop_id, arrival_time, departure_time }
}

fn journey(id: i32, bit_field_id: i32, route: Vec<JourneyRouteEntry>) -> Journey {
    Journey {
        id,
        administration: "000011".to_string(),
        transport_designation: "R".to_string(),
        bit_field_id,
        route,
    }
}

fn morning_run(id: i32) -> Journey {
    journey(
        id,
        0,
        vec![
            call(1, None, at(8, 0)),
            call(2, at(8, 10), at(8, 11)),
            call(3, at(8, 20), at(8, 22)),
            call(4, at(8, 40), None),
        ],
    )
}

fn night_run(id: i32) -> Journey {
    journey(
        id,
        0,
        vec![
            call(1, None, at(23, 50)),
            call(3, at(0, 10), at(0, 12)),
            call(4, at(0, 30), None),
        ],
    )
}

fn round_trip(id: i32) -> Journey {
    journey(id, 0, vec![call(1, None, at(10, 0)), call(2, at(10, 10), at(10, 12)), call(1, at(10, 20), None)])
}

fn build(journeys: Vec<Journey>, bit_fields: Vec<BitField>, exchange_times: Vec<ExchangeTimeJourney>, period: (Date, Date)) -> Option<Timetable> {
    Timetable::new(
        vec![stop(1, true), stop(2, false), stop(3, true), stop(4, true)],
        journeys,
        vec![
            StopConnection { stop_id_1: 3, stop_id_2: 9, duration: 5 },
            StopConnection { stop_id_1: 1, stop_id_2: 2, duration: 12 },
            StopConnection { stop_id_1: 3, stop_id_2: 4, duration: 7 },
        ],
        bit_fields,
        exchange_times,
        vec![],
        (10, 2),
        period.0,
        period.1,
    )
}

fn year() -> (Date, Date) {
    (create_date(2024, 1, 1), create_date(2024, 12, 31))
}

#[test]
fn records_that_fit_together_make_a_timetable() {
    let timetable = build(vec![morning_run(101), night_run(106)], vec![], vec![], year()).unwrap();
    assert_eq!(timetable.stops.len(), 4);
    assert_eq!(timetable.journeys.len(), 2);
    assert_eq!(timetable.find_stop(3).unwrap().id, 3);
    assert!(timetable.find_stop(9).is_none());
    assert_eq!(timetable.find_journey(106).unwrap().route.len(), 3);
    assert!(timetable.find_journey(107).is_none());
    assert_eq!(timetable.start_date, create_date(2024, 1, 1));
    assert_eq!(timetable.default_exchange_time, (10, 2));
}

#[test]
fn each_journey_is_noted_under_the_stops_at_which_it_calls() {
    let timetable = build(vec![morning_run(101), night_run(106), round_trip(110)], vec![], vec![], year()).unwrap();
    assert_eq!(timetable.journeys_by_stop.get(&1), Some(&vec![0, 1, 2]));
    assert_eq!(timetable.journeys_by_stop.get(&2), Some(&vec![0, 2]));
    assert_eq!(timetable.journeys_by_stop.get(&3), Some(&vec![0, 1]));
    assert_eq!(timetable.journeys_by_stop.get(&4), Some(&vec![0, 1]));
    assert_eq!(timetable.journeys_by_stop.get(&9), None);
}

#[test]
fn each_walk_is_noted_under_the_stop_that_it_leaves() {
    let timetable = build(vec![morning_run(101)], vec![], vec![], year()).unwrap();
    assert_eq!(timetable.connections_by_stop.get(&3), Some(&vec![0, 2]));
    assert_eq!(timetable.connections_by_stop.get(&1), Some(&vec![1]));
    assert_eq!(timetable.connections_by_stop.get(&9), None);
    assert_eq!(timetable.connections_by_stop.get(&4), None);
}

#[test]
fn of_two_journeys_with_one_identifier_the_later_is_found() {
    let timetable = build(vec![morning_run(101), night_run(101)], vec![], vec![], year()).unwrap();
    assert_eq!(timetable.find_journey(101).unwrap().route.len(), 3);
    assert_eq!(timetable.journeys_by_stop.get(&1), Some(&vec![1]));
    assert_eq!(timetable.journeys_by_stop.get(&2), None);
}

#[test]
fn a_journey_to_an_unknown_stop_is_refused() {
    let lost = journey(120, 0, vec![call(1, None, at(8, 0)), call(77, at(8, 10), None)]);
    assert!(build(vec![morning_run(101), lost], vec![], vec![], year()).is_none());
}

#[test]
fn a_journey_with_one_call_is_refused() {
    let short = journey(121, 0, vec![call(1, None, at(8, 0))]);
    assert!(build(vec![short], vec![], vec![], year()).is_none());
    assert!(build(vec![journey(122, 0, vec![])], vec![], vec![], year()).is_none());
}

#[test]
fn a_journey_that_calls_twice_at_a_stop_on_its_way_is_refused() {
    let twice = journey(
        123,
        0,
        vec![
            call(1, None, at(8, 0)),
            call(2, at(8, 10), at(8, 11)),
            call(3, at(8, 20), at(8, 21)),
            call(2, at(8, 30), at(8, 31)),
            call(4, at(8, 40), None),
        ],
    );
    assert!(build(vec![twice], vec![], vec![], year()).is_none());
    let back_too_soon = journey(
        124,
        0,
        vec![call(1, None, at(8, 0)), call(1, at(8, 10), at(8, 11)), call(4, at(8, 40), None)],
    );
    assert!(build(vec![back_too_soon], vec![], vec![], year()).is_none());
}

#[test]
fn a_journey_may_end_where_it_began() {
    assert!(build(vec![round_trip(110)], vec![], vec![], year()).is_some());
}

#[test]
fn a_journey_without_a_time_on_its_way_is_refused() {
    let no_departure = journey(125, 0, vec![call(1, None, None), call(4, at(8, 40), None)]);
    assert!(build(vec![no_departure], vec![], vec![], year()).is_none());
    let no_arrival = journey(126, 0, vec![call(1, None, at(8, 0)), call(4, None, None)]);
    assert!(build(vec![no_arrival], vec![], vec![], year()).is_none());
    let no_time_between = journey(
        127,
        0,
        vec![call(1, None, at(8, 0)), call(2, at(8, 10), None), call(4, at(8, 40), None)],
    );
    assert!(build(vec![no_time_between], vec![], vec![], year()).is_none());
}

#[test]
fn a_time_after_the_end_of_the_day_is_refused() {
    let late = journey(
        128,
        0,
        vec![call(1, None, Some(Time { secs: 86_400 })), call(4, at(8, 40), None)],
    );
    assert!(build(vec![late], vec![], vec![], year()).is_none());
}

#[test]
fn a_journey_with_an_unknown_calendar_is_refused() {
    let mut run = morning_run(101);
    run.bit_field_id = 7;
    assert!(build(vec![run], vec![], vec![], year()).is_none());
    let mut run = morning_run(101);
    run.bit_field_id = 7;
    let calendar = BitField { id: 7, bits: vec![0; 368] };
    assert!(build(vec![run], vec![calendar], vec![], year()).is_some());
}

#[test]
fn a_calendar_that_is_shorter_than_the_timetable_is_refused() {
    assert!(build(vec![], vec![BitField { id: 7, bits: vec![1; 367] }], vec![], year()).is_none());
    assert!(build(vec![], vec![BitField { id: 7, bits: vec![1; 368] }], vec![], year()).is_some());
    let one_day = (create_date(2024, 6, 1), create_date(2024, 6, 1));
    assert!(build(vec![], vec![BitField { id: 7, bits: vec![1; 2] }], vec![], one_day).is_none());
    assert!(build(vec![], vec![BitField { id: 7, bits: vec![1; 3] }], vec![], one_day).is_some());
}

#[test]
fn an_exchange_time_with_an_unknown_calendar_is_refused() {
    let entry = ExchangeTimeJourney { stop_id: 3, journey_id_1: 101, journey_id_2: 106, duration: 9, bit_field_id: Some(8) };
    assert!(build(vec![], vec![], vec![entry], year()).is_none());
    let entry = ExchangeTimeJourney { stop_id: 3, journey_id_1: 101, journey_id_2: 106, duration: 9, bit_field_id: None };
    assert!(build(vec![], vec![], vec![entry], year()).is_some());
}

#[test]
fn a_timetable_that_ends_before_it_begins_is_refused() {
    assert!(build(vec![], vec![], vec![], (create_date(2024, 12, 31), create_date(2024, 1, 1))).is_none());
    assert!(build(vec![], vec![], vec![], (create_date(2024, 6, 1), create_date(2024, 6, 1))).is_some());
}

#[test]
fn a_timetable_at_the_edge_of_the_day_numbers_is_refused() {
    assert!(build(vec![], vec![], vec![], (Date::from_days(i32::MIN), Date::from_days(i32::MIN + 100))).is_none());
    assert!(build(vec![], vec![], vec![], (Date::from_days(i32::MAX - 100), Date::from_days(i32::MAX))).is_none());
    assert!(build(vec![], vec![], vec![], (Date::from_days(i32::MIN + 64), Date::from_days(i32::MIN + 100))).is_some());
}

#[test]
fn a_journey_says_whether_it_can_be_followed() {
    assert!(morning_run(101).is_wellformed());
    assert!(night_run(106).is_wellformed());
    assert!(round_trip(110).is_wellformed());
    assert!(!journey(121, 0, vec![call(1, None, at(8, 0))]).is_wellformed());
    assert!(!journey(125, 0, vec![call(1, None, None), call(4, at(8, 40), None)]).is_wellformed());
    let twice = journey(
        123,
        0,
        vec![call(1, None, at(8, 0)), call(2, at(8, 10), at(8, 11)), call(2, at(8, 30), None)],
    );
    assert!(!twice.is_wellformed());
}

#[test]
fn a_journey_knows_where_it_begins_and_ends() {
    let run = morning_run(101);
    assert_eq!(run.first_stop_id(), 1);
    assert_eq!(run.last_stop_id(), 4);
    assert!(run.is_last_stop(4, false));
    assert!(run.is_last_stop(4, true));
    assert!(!run.is_last_stop(3, false));
    assert!(!run.is_last_stop(1, true));
}

#[test]
fn a_round_trip_has_no_last_stop_where_loops_are_ignored() {
    let trip = round_trip(110);
    assert!(trip.is_last_stop(1, false));
    assert!(!trip.is_last_stop(1, true));
    assert!(!trip.is_last_stop(2, true));
    assert!(!trip.is_last_stop(2, false));
}

#[test]
fn stops_are_counted_from_one_call_to_another() {
    let run = morning_run(101);
    assert_eq!(run.count_stops(1, 4), 4);
    assert_eq!(run.count_stops(1, 2), 2);
    assert_eq!(run.count_stops(2, 4), 3);
    assert_eq!(run.count_stops(3, 3), 1);
    assert_eq!(run.count_stops(1, 77), 5);
    assert_eq!(run.count_stops(77, 4), 1);
    assert_eq!(run.count_stops(4, 1), 2);
}

#[test]
fn a_journey_is_found_at_the_first_of_its_calls_at_a_stop() {
    let trip = round_trip(110);
    assert_eq!(trip.position_from(1, 0), 0);
    assert_eq!(trip.position_from(1, 1), 2);
    assert_eq!(trip.position_from(2, 0), 1);
    assert_eq!(trip.position_from(2, 2), 3);
    assert_eq!(trip.position_from(7, 0), 3);
}

#[test]
fn the_calls_between_two_stops_leave_out_the_first() {
    let run = morning_run(101);
    let stops = |calls: Vec<JourneyRouteEntry>| calls.iter().map(|entry| entry.stop_id).collect::<Vec<i32>>();
    assert_eq!(stops(run.route_section(1, 4)), vec![2, 3, 4]);
    assert_eq!(stops(run.route_section(1, 2)), vec![2]);
    assert_eq!(stops(run.route_section(2, 3)), vec![3]);
    assert_eq!(stops(run.route_section(3, 77)), vec![4]);
    assert_eq!(stops(run.route_section(77, 4)), Vec::<i32>::new());
    assert_eq!(stops(run.route_section(4, 1)), Vec::<i32>::new());
    assert_eq!(stops(round_trip(110).route_section(1, 1)), vec![2, 1]);
}

#[test]
fn a_call_before_the_time_of_the_first_departure_is_on_the_next_day() {
    let run = night_run(106);
    let day = create_date(2024, 6, 1);
    assert_eq!(run.departure_time_of(1), Some((create_time(23, 50), false)));
    assert_eq!(run.departure_time_of(3), Some((create_time(0, 12), true)));
    assert_eq!(run.departure_time_of(4), None);
    assert_eq!(run.departure_time_of(2), None);
    assert_eq!(run.arrival_time_of(3), Some((create_time(0, 10), true)));
    assert_eq!(run.arrival_time_of(1), None);
    assert_eq!(run.departure_at_of(1, day), Some(create_date_time(2024, 6, 1, 23, 50)));
    assert_eq!(run.departure_at_of(3, day), Some(create_date_time(2024, 6, 2, 0, 12)));
    assert_eq!(run.departure_at_of(4, day), None);
}

#[test]
fn the_day_of_one_call_is_found_from_the_day_of_another() {
    let run = night_run(106);
    let first = create_date(2024, 6, 1);
    let second = create_date(2024, 6, 2);
    // Boarded at the first stop on the first day, the journey arrives on the second.
    assert_eq!(run.arrival_at_of_with_origin(3, first, true, 1), Some(create_date_time(2024, 6, 2, 0, 10)));
    assert_eq!(run.arrival_at_of_with_origin(4, first, true, 1), Some(create_date_time(2024, 6, 2, 0, 30)));
    // Boarded after midnight, it arrives on the day on which it was boarded.
    assert_eq!(run.arrival_at_of_with_origin(4, second, true, 3), Some(create_date_time(2024, 6, 2, 0, 30)));
    // Seen from its arrival after midnight, it left the first stop the day before.
    assert_eq!(run.departure_at_of_with_origin(1, second, false, 4), Some(create_date_time(2024, 6, 1, 23, 50)));
    assert_eq!(run.departure_at_of_with_origin(3, second, false, 4), Some(create_date_time(2024, 6, 2, 0, 12)));
    assert_eq!(run.arrival_at_of_with_origin(3, second, false, 4), Some(create_date_time(2024, 6, 2, 0, 10)));
    // A stop at which the journey does not call has no instant.
    assert_eq!(run.arrival_at_of_with_origin(2, first, true, 1), None);
    assert_eq!(run.arrival_at_of_with_origin(4, first, true, 2), None);
    assert_eq!(run.arrival_at_of_with_origin(4, first, false, 1), None);
    assert_eq!(run.departure_at_of_with_origin(4, first, true, 1), None);
}

#[test]
fn a_day_run_stays_on_its_day() {
    let run = morning_run(101);
    let day = create_date(2024, 6, 1);
    assert_eq!(run.departure_at_of(3, day), Some(create_date_time(2024, 6, 1, 8, 22)));
    assert_eq!(run.arrival_at_of_with_origin(4, day, true, 1), Some(create_date_time(2024, 6, 1, 8, 40)));
    assert_eq!(run.departure_at_of_with_origin(1, day, false, 4), Some(create_date_time(2024, 6, 1, 8, 0)));
}

#[test]
fn journeys_that_go_the_same_way_from_a_stop_have_one_fingerprint() {
    let first = morning_run(101);
    let mut second = morning_run(103);
    second.route[0].departure_time = at(9, 0);
    assert!(first.hash_route(1).is_some());
    assert_eq!(first.hash_route(1), second.hash_route(1));
    assert_eq!(first.hash_route(3), second.hash_route(3));
    assert_eq!(first.hash_route(4), second.hash_route(4));
}

#[test]
fn journeys_that_go_different_ways_have_different_fingerprints() {
    let run = morning_run(101);
    let night = night_run(106);
    assert_ne!(run.hash_route(1), run.hash_route(2));
    assert_ne!(run.hash_route(2), run.hash_route(3));
    assert_ne!(run.hash_route(1), night.hash_route(1));
    assert_eq!(run.hash_route(3), night.hash_route(3));
    assert_ne!(run.hash_route(1), Some(1));
}

#[test]
fn a_journey_has_no_fingerprint_from_a_stop_at_which_it_does_not_call() {
    assert_eq!(morning_run(101).hash_route(77), None);
    assert_eq!(night_run(106).hash_route(2), None);
}
