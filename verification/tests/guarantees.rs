use hrdf_routing_engine::find_reachable_stops_within_time_limit;
use hrdf_routing_engine::plan_journey;
use hrdf_routing_engine::routing::exchange::get_exchange_time;
use hrdf_routing_engine::routing::models::{Route, RouteResult, RouteSection};
use hrdf_routing_engine::routing::solutions::is_improving_solution;
use hrdf_routing_engine::timetable::{
    Journey, JourneyRouteEntry, Stop, StopConnection, Timetable,
};
use hrdf_routing_engine::utils::{create_date, create_date_time, create_time, DateTime, Time};
use rustc_hash::FxHashSet;

fn stop(id: i32, exchange_point: bool, exchange_time: Option<(i16, i16)>) -> Stop {
    Stop {
        id,
        name: format!("Stop {}", id),
        lv95_coordinates: None,
        wgs84_coordinates: None,
        exchange_point,
        exchange_time,
    }
}

fn at(hour: u32, minute: u32) -> Option<Time> {
    Some(create_time(hour, minute))
}

fn call(stop_id: i32, arrival_time: Option<Time>, departure_time: Option<Time>) -> JourneyRouteEntry {
    JourneyRouteEntry { stop_id, arrival_time, departure_time }
}

fn journey(id: i32, designation: &str, route: Vec<JourneyRouteEntry>) -> Journey {
    Journey {
        id,
        administration: "000011".to_string(),
        transport_designation: designation.to_string(),
        bit_field_id: 0,
        route,
    }
}

/// A line from 1 to 5 every half hour, a cross line through 3, an express
/// from 1 to 5, a night run, a round trip from 6, and walks at 3 and 5.
fn timetable() -> Timetable {
    let mut journeys = vec![];
    for run in 0..6u32 {
        let hour = 8 + run / 2;
        let minute = 30 * (run % 2);
        journeys.push(journey(
            100 + run as i32,
            "R",
            vec![
                call(1, None, at(hour, minute)),
                call(2, at(hour, minute + 5), at(hour, minute + 6)),
                call(3, at(hour, minute + 12), at(hour, minute + 14)),
                call(4, at(hour, minute + 20), at(hour, minute + 21)),
                call(5, at(hour, minute + 28), None),
            ],
        ));
        journeys.push(journey(
            200 + run as i32,
            "R",
            vec![
                call(7, None, at(hour, minute + 2)),
                call(3, at(hour, minute + 16), at(hour, minute + 18)),
                call(8, at(hour, minute + 25), at(hour, minute + 26)),
                call(9, at(hour + 1, minute), None),
            ],
        ));
    }
    journeys.push(journey(300, "IC", vec![call(1, None, at(8, 10)), call(5, at(8, 25), None)]));
    journeys.push(journey(301, "IC", vec![call(5, None, at(8, 40)), call(10, at(9, 30), None)]));
    journeys.push(journey(
        400,
        "R",
        vec![call(1, None, at(23, 40)), call(3, at(23, 58), at(0, 2)), call(5, at(0, 20), None)],
    ));
    journeys.push(journey(
        500,
        "R",
        vec![call(6, None, at(9, 0)), call(4, at(9, 10), at(9, 11)), call(6, at(9, 30), None)],
    ));
    Timetable::new(
        vec![
            stop(1, true, None),
            stop(2, false, None),
            stop(3, true, Some((6, 3))),
            stop(4, false, None),
            stop(5, true, Some((8, 5))),
            stop(6, true, None),
            stop(7, true, None),
            stop(8, true, None),
            stop(9, true, None),
            stop(10, true, None),
        ],
        journeys,
        vec![
            StopConnection { stop_id_1: 3, stop_id_2: 6, duration: 4 },
            StopConnection { stop_id_1: 5, stop_id_2: 6, duration: 10 },
            StopConnection { stop_id_1: 1, stop_id_2: 7, duration: 15 },
            StopConnection { stop_id_1: 8, stop_id_2: 10, duration: 20 },
        ],
        vec![],
        vec![],
        vec![],
        (10, 2),
        create_date(2024, 1, 1),
        create_date(2024, 12, 31),
    )
    .unwrap()
}

fn departures() -> Vec<DateTime> {
    vec![
        create_date_time(2024, 6, 1, 7, 55),
        create_date_time(2024, 6, 1, 8, 5),
        create_date_time(2024, 6, 1, 9, 47),
        create_date_time(2024, 6, 1, 22, 30),
        create_date_time(2024, 12, 31, 23, 0),
        create_date_time(2024, 1, 1, 0, 0),
    ]
}

fn all_routes() -> Vec<(DateTime, RouteResult)> {
    let timetable = timetable();
    let mut routes = vec![];
    for departure_at in departures() {
        for origin in [1, 3, 5, 7] {
            for route in find_reachable_stops_within_time_limit(&timetable, origin, departure_at, 3 * 3_600) {
                routes.push((departure_at, route));
            }
            for target in 1..=10 {
                if let Some(route) = plan_journey(&timetable, origin, target, departure_at) {
                    routes.push((departure_at, route));
                }
            }
        }
    }
    routes
}

#[test]
fn the_searches_find_routes() {
    let routes = all_routes();
    assert!(routes.len() > 50);
    assert!(routes.iter().any(|(_, route)| route.sections().len() >= 3));
    assert!(routes.iter().any(|(_, route)| route.sections().iter().any(|section| section.is_walking_trip())));
    assert!(routes.iter().any(|(_, route)| route.arrival_at().date() != route.departure_at().date()));
}

#[test]
fn each_section_begins_where_the_one_before_it_ended() {
    for (_, route) in all_routes() {
        let sections = route.sections();
        for i in 1..sections.len() {
            assert_eq!(sections[i - 1].arrival_stop_id(), sections[i].departure_stop_id());
        }
    }
}

#[test]
fn rides_arrive_in_the_order_of_the_route() {
    for (departure_at, route) in all_routes() {
        let mut now = departure_at;
        for section in route.sections() {
            if let (Some(departure), Some(arrival)) = (section.departure_at(), section.arrival_at()) {
                assert!(now <= departure);
                assert!(departure <= arrival);
                now = arrival;
            } else {
                now = now.add_seconds(60 * i64::from(section.duration().unwrap()));
            }
        }
        assert!(departure_at <= route.departure_at());
        assert!(route.departure_at() <= route.arrival_at());
    }
}

#[test]
fn no_route_reaches_a_stop_twice() {
    for (_, route) in all_routes() {
        let sections = route.sections();
        let mut reached: Vec<i32> = vec![sections[0].departure_stop_id()];
        for section in sections {
            let round_trip = section.journey_id() == Some(500);
            assert!(round_trip || !reached.contains(&section.arrival_stop_id()));
            reached.push(section.arrival_stop_id());
        }
    }
}

#[test]
fn a_round_trip_leads_back_to_the_stop_of_departure() {
    let timetable = timetable();
    let route = plan_journey(&timetable, 6, 6, create_date_time(2024, 6, 1, 8, 55)).unwrap();
    assert_eq!(route.sections().len(), 1);
    assert_eq!(route.sections()[0].journey_id(), Some(500));
    assert_eq!(route.sections()[0].departure_stop_id(), 6);
    assert_eq!(route.sections()[0].arrival_stop_id(), 6);
    assert_eq!(route.departure_at(), create_date_time(2024, 6, 1, 9, 0));
    assert_eq!(route.arrival_at(), create_date_time(2024, 6, 1, 9, 30));
    // Without a round trip no route leads from a stop to itself.
    for stop_id in [1, 2, 3, 5, 7, 8, 9, 10] {
        assert!(plan_journey(&timetable, stop_id, stop_id, create_date_time(2024, 6, 1, 8, 55)).is_none());
    }
}

#[test]
fn every_route_goes_from_the_stop_of_departure_to_the_stop_asked_for() {
    let timetable = timetable();
    for departure_at in departures() {
        for origin in [1, 3, 5, 6, 7] {
            for target in 1..=10 {
                if let Some(route) = plan_journey(&timetable, origin, target, departure_at) {
                    let sections = route.sections();
                    assert_eq!(sections[0].departure_stop_id(), origin);
                    assert_eq!(sections[sections.len() - 1].arrival_stop_id(), target);
                    assert!(departure_at <= route.departure_at());
                    assert!(route.departure_at() <= route.arrival_at());
                }
            }
            for route in find_reachable_stops_within_time_limit(&timetable, origin, departure_at, 7_200) {
                assert_eq!(route.sections()[0].departure_stop_id(), origin);
                assert!(departure_at <= route.departure_at());
                assert!(route.arrival_at() <= departure_at.add_seconds(7_200));
            }
        }
    }
}

#[test]
fn a_change_is_given_the_time_that_it_takes() {
    let timetable = timetable();
    let mut changes = 0;
    for (_, route) in all_routes() {
        let sections = route.sections();
        for i in 1..sections.len() {
            let (arrived, boarded) = (&sections[i - 1], &sections[i]);
            if let (Some(first), Some(second)) = (arrived.journey_id(), boarded.journey_id()) {
                assert_ne!(first, second);
                let minutes = get_exchange_time(
                    &timetable,
                    boarded.departure_stop_id(),
                    first,
                    second,
                    boarded.departure_at().unwrap(),
                );
                let waited = boarded.departure_at().unwrap().seconds_since(arrived.arrival_at().unwrap());
                assert!(waited >= 60 * i64::from(minutes));
                changes += 1;
            }
        }
    }
    assert!(changes > 10);
}

#[test]
fn an_intercity_change_is_given_more_time() {
    let timetable = timetable();
    // Between two expresses a change at 5 takes eight minutes, any other
    // change five.
    assert_eq!(get_exchange_time(&timetable, 5, 300, 301, create_date_time(2024, 6, 1, 8, 40)), 8);
    assert_eq!(get_exchange_time(&timetable, 5, 100, 301, create_date_time(2024, 6, 1, 8, 40)), 5);
    // The express arrives at 5 at 08:25 and the next express leaves at 08:40.
    let route = plan_journey(&timetable, 1, 5, create_date_time(2024, 6, 1, 8, 5)).unwrap();
    assert_eq!(route.sections().len(), 1);
    assert_eq!(route.sections()[0].journey_id(), Some(300));
    assert_eq!(route.arrival_at(), create_date_time(2024, 6, 1, 8, 25));
}

#[test]
fn the_route_that_ends_on_foot_wins_where_it_is_there_first() {
    let timetable = timetable();
    // By the two expresses the stop 10 is reached at 09:30; by the line, the
    // cross line and a walk of twenty minutes it is reached at 09:15.
    let route = plan_journey(&timetable, 1, 10, create_date_time(2024, 6, 1, 8, 5)).unwrap();
    let legs: Vec<Option<i32>> = route.sections().iter().map(|section| section.journey_id()).collect();
    assert_eq!(legs, vec![Some(101), Some(201), None]);
    assert_eq!(route.departure_at(), create_date_time(2024, 6, 1, 8, 30));
    assert_eq!(route.arrival_at(), create_date_time(2024, 6, 1, 9, 15));
    assert_eq!(route.sections()[2].duration(), Some(20));
}

#[test]
fn every_stop_that_is_reached_is_reached_within_the_limit() {
    let timetable = timetable();
    for departure_at in departures() {
        for limit in [0, 600, 1_800, 3_600, 7_200] {
            let routes = find_reachable_stops_within_time_limit(&timetable, 1, departure_at, limit);
            let mut stops = FxHashSet::default();
            for route in &routes {
                assert!(route.arrival_at() <= departure_at.add_seconds(limit));
                let last = &route.sections()[route.sections().len() - 1];
                assert!(stops.insert(last.arrival_stop_id()));
            }
        }
    }
}

#[test]
fn the_route_to_a_stop_is_no_later_than_the_stop_is_reached() {
    let timetable = timetable();
    let departure_at = create_date_time(2024, 6, 1, 8, 5);
    for route in find_reachable_stops_within_time_limit(&timetable, 1, departure_at, 4 * 3_600) {
        let target = route.sections()[route.sections().len() - 1].arrival_stop_id();
        let direct = plan_journey(&timetable, 1, target, departure_at).unwrap();
        assert!(direct.arrival_at() <= route.arrival_at());
    }
}

fn candidates() -> Vec<Route> {
    let visited = || FxHashSet::default();
    let ride = |journey_id: i32, from: i32, to: i32, hour: u32, minute: u32| {
        RouteSection::new(Some(journey_id), from, to, create_date_time(2024, 6, 1, hour, minute), None)
    };
    let walk = |from: i32, to: i32, hour: u32, minute: u32| {
        RouteSection::new(None, from, to, create_date_time(2024, 6, 1, hour, minute), Some(5))
    };
    vec![
        Route::new(vec![ride(100, 1, 5, 8, 28)], visited()),
        Route::new(vec![ride(300, 1, 5, 8, 28)], visited()),
        Route::new(vec![ride(300, 1, 5, 8, 25)], visited()),
        Route::new(vec![ride(100, 1, 3, 8, 12), ride(101, 3, 5, 8, 28)], visited()),
        Route::new(vec![ride(100, 1, 2, 8, 5), ride(101, 2, 5, 8, 28)], visited()),
        Route::new(vec![ride(100, 1, 4, 8, 20), ride(101, 4, 5, 8, 28)], visited()),
        Route::new(vec![walk(1, 7, 8, 10), ride(200, 7, 3, 8, 28)], visited()),
        Route::new(vec![ride(100, 1, 3, 8, 12), walk(3, 6, 8, 28)], visited()),
        Route::new(vec![ride(100, 1, 5, 8, 58)], visited()),
        Route::new(vec![ride(100, 1, 3, 8, 12), ride(200, 3, 8, 8, 25), ride(101, 8, 5, 8, 58)], visited()),
    ]
}

#[test]
fn of_two_routes_one_at_most_is_the_better() {
    let timetable = timetable();
    let pool = candidates();
    for first in &pool {
        assert!(!is_improving_solution(&timetable, first, Some(first)));
        for second in &pool {
            let forth = is_improving_solution(&timetable, first, Some(second));
            let back = is_improving_solution(&timetable, second, Some(first));
            assert!(!(forth && back));
        }
    }
}

#[test]
fn the_better_of_the_better_is_the_better() {
    let timetable = timetable();
    let pool = candidates();
    let mut chains = 0;
    for first in &pool {
        for second in &pool {
            for third in &pool {
                if is_improving_solution(&timetable, first, Some(second))
                    && is_improving_solution(&timetable, second, Some(third))
                {
                    assert!(is_improving_solution(&timetable, first, Some(third)));
                    chains += 1;
                }
            }
        }
    }
    assert!(chains > 20);
}

#[test]
fn routes_of_which_none_is_the_better_tie() {
    let timetable = timetable();
    let pool = candidates();
    let mut ties = 0;
    for (i, first) in pool.iter().enumerate() {
        for (j, second) in pool.iter().enumerate() {
            if i != j
                && !is_improving_solution(&timetable, first, Some(second))
                && !is_improving_solution(&timetable, second, Some(first))
            {
                assert_eq!(first.arrival_at(), second.arrival_at());
                assert_eq!(first.count_connections(), second.count_connections());
                for other in &pool {
                    assert_eq!(
                        is_improving_solution(&timetable, first, Some(other)),
                        is_improving_solution(&timetable, second, Some(other))
                    );
                }
                ties += 1;
            }
        }
    }
    // The walk before or after the one ride makes no difference.
    assert!(ties >= 2);
}

#[test]
fn the_last_section_is_changed_in_place() {
    let mut route = Route::new(
        vec![RouteSection::new(Some(100), 1, 3, create_date_time(2024, 6, 1, 8, 12), None)],
        FxHashSet::default(),
    );
    let last = route.last_section_mut();
    last.set_arrival_stop_id(5);
    last.set_arrival_at(create_date_time(2024, 6, 1, 8, 28));
    assert_eq!(route.arrival_stop_id(), 5);
    assert_eq!(route.arrival_at(), create_date_time(2024, 6, 1, 8, 28));
    assert_eq!(route.last_section().departure_stop_id(), 1);
}
