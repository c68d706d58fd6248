//! The journey search: what leaves a stop, how a route grows, and which
//! routes are kept.
pub mod connections;
pub mod constants;
pub mod display;
pub mod dominance;
pub mod driver;
pub mod exchange;
pub mod exploration;
pub mod guarantees;
pub mod models;
pub mod query;
pub mod route_impl;
pub mod solutions;
pub mod utils;

use crate::collections::{map_keys, map_remove};
use crate::routing::driver::{compute_routing, compute_routing_spec, result_views, to_results};
use crate::routing::models::{RouteResult, RoutingAlgorithmArgs};
use crate::routing::constants::MAXIMUM_NUMBER_OF_EXPLORABLE_CONNECTIONS;
use crate::routing::query::{lemma_result_of_solution, ride_results, Query};
use crate::routing::route_impl::RouteResultView;
use crate::timetable::Timetable;
use crate::utils::DateTime;
use vstd::prelude::*;

verus! {

/// What each of the routes holds.
pub open spec fn route_result_views(routes: Seq<RouteResult>) -> Seq<RouteResultView> {
    routes.map_values(|route: RouteResult| route@)
}

/// The routes of a map, in the order of the given stops.
pub open spec fn results_for(results: Map<i32, RouteResultView>, stops: Seq<i32>) -> Seq<
    RouteResultView,
> {
    stops.map_values(|stop_id: i32| results[stop_id])
}

/// The fastest route from the departure stop to the arrival stop, left at
/// `departure_at` or later; `None` where the search finds no route. The day of
/// departure is a day of the timetable.
pub fn plan_journey(
    timetable: &Timetable,
    departure_stop_id: i32,
    arrival_stop_id: i32,
    departure_at: DateTime,
) -> (route: Option<RouteResult>)
    requires
        timetable.wf(),
        departure_at.wf(),
        timetable.covers(departure_at.date),
    ensures
        ({
            let found = to_results(
                *timetable,
                compute_routing_spec(
                    *timetable,
                    departure_stop_id,
                    departure_at,
                    RoutingAlgorithmArgs::spec_to_arrival_stop(arrival_stop_id),
                ),
            );
            &&& route.is_some() == found.contains_key(arrival_stop_id)
            &&& route matches Some(fastest) ==> fastest@ == found[arrival_stop_id]
        }),
        route matches Some(fastest) ==> {
            &&& fastest@.sections.len() > 0
            &&& fastest@.sections[0].departure_stop_id == departure_stop_id
            &&& fastest@.sections[fastest@.sections.len() - 1].arrival_stop_id == arrival_stop_id
            &&& fastest@.sections[0].journey_id.is_some() || timetable.is_chronological()
                ==> departure_at.timestamp() <= fastest@.departure_at.timestamp()
            &&& fastest@.departure_at.wf()
            &&& fastest@.arrival_at.wf()
            &&& timetable.is_chronological() ==> fastest@.departure_at.timestamp()
                <= fastest@.arrival_at.timestamp()
            &&& 1 <= ride_results(fastest@.sections).len()
                <= MAXIMUM_NUMBER_OF_EXPLORABLE_CONNECTIONS
        },
{
    let mut results = compute_routing(
        timetable,
        departure_stop_id,
        departure_at,
        RoutingAlgorithmArgs::solve_from_departure_stop_to_arrival_stop(arrival_stop_id),
    );
    let ghost found = result_views(results@);
    let route = map_remove(&mut results, arrival_stop_id);
    proof {
        assert(route.is_some() == found.contains_key(arrival_stop_id));
        let solved = compute_routing_spec(
            *timetable,
            departure_stop_id,
            departure_at,
            RoutingAlgorithmArgs::spec_to_arrival_stop(arrival_stop_id),
        );
        assert(found == to_results(*timetable, solved));
        if route.is_some() {
            assert(found.contains_key(arrival_stop_id));
            assert(solved.contains_key(arrival_stop_id));
            assert(route.unwrap()@ == found[arrival_stop_id]);
            assert(found[arrival_stop_id] == solved[arrival_stop_id].to_route_result_spec(
                *timetable,
            ));
        }
        if solved.contains_key(arrival_stop_id) {
            assert(solved[arrival_stop_id].rides().len() <= MAXIMUM_NUMBER_OF_EXPLORABLE_CONNECTIONS);
            assert(RoutingAlgorithmArgs::spec_to_arrival_stop(arrival_stop_id).target() == Some(
                arrival_stop_id,
            ));
            lemma_result_of_solution(
                *timetable,
                solved[arrival_stop_id],
                Query {
                    departure_stop_id,
                    departure_at: departure_at.timestamp(),
                    arrival_stop_id: Some(arrival_stop_id),
                },
            );
        }
    }
    route
}

/// The fastest route from the departure stop, left at `departure_at` or
/// later, to every stop that can be reached within `time_limit` seconds; the
/// order of the routes is that in which the map of the routes hands them out.
/// Each route arrives at its last stop, on foot or by a ride, by the end of
/// that time.
/// The day of departure is a day of the timetable.
pub fn find_reachable_stops_within_time_limit(
    timetable: &Timetable,
    departure_stop_id: i32,
    departure_at: DateTime,
    time_limit: i64,
) -> (routes: Vec<RouteResult>)
    requires
        timetable.wf(),
        departure_at.wf(),
        timetable.covers(departure_at.date),
        DateTime::timestamp_fits(departure_at.timestamp() + time_limit),
    ensures
        ({
            let found = to_results(
                *timetable,
                compute_routing_spec(
                    *timetable,
                    departure_stop_id,
                    departure_at,
                    RoutingAlgorithmArgs::spec_to_reachable_stops(
                        DateTime::of_timestamp(departure_at.timestamp() + time_limit),
                    ),
                ),
            );
            exists|stops: Seq<i32>|
                {
                    &&& stops.no_duplicates()
                    &&& forall|stop_id: i32| stops.contains(stop_id) <==> found.contains_key(stop_id)
                    &&& route_result_views(routes@) == #[trigger] results_for(found, stops)
                }
        }),
        forall|i: int|
            0 <= i < routes@.len() ==> {
                let route = (#[trigger] routes@[i])@;
                &&& route.sections.len() > 0
                &&& route.sections[0].departure_stop_id == departure_stop_id
                &&& route.departure_at.wf()
                &&& route.arrival_at.wf()
                &&& route.arrival_at.timestamp() <= departure_at.timestamp() + time_limit
                &&& timetable.is_chronological() ==> departure_at.timestamp()
                    <= route.departure_at.timestamp() <= route.arrival_at.timestamp()
                &&& 1 <= ride_results(route.sections).len()
                    <= MAXIMUM_NUMBER_OF_EXPLORABLE_CONNECTIONS
            },
{
    let mut results = compute_routing(
        timetable,
        departure_stop_id,
        departure_at,
        RoutingAlgorithmArgs::solve_from_departure_stop_to_reachable_arrival_stops(
            departure_at.add_seconds(time_limit),
        ),
    );
    let ghost found = result_views(results@);
    let stops = map_keys(&results);
    let mut routes: Vec<RouteResult> = Vec::new();
    let mut at: usize = 0;
    proof {
        assert(route_result_views(routes@) =~= results_for(found, stops@.take(0)));
        assert forall|k: int| 0 <= k < stops@.len() implies results@.contains_key(
            #[trigger] stops@[k],
        ) && results@[stops@[k]]@ == found[stops@[k]] by {
            assert(stops@.contains(stops@[k]));
        }
        assert forall|stop_id: i32| stops@.contains(stop_id) <==> found.contains_key(stop_id) by {
            assert(found.contains_key(stop_id) == results@.contains_key(stop_id));
        }
    }
    while at < stops.len()
        invariant
            at <= stops@.len(),
            stops@.no_duplicates(),
            forall|stop_id: i32| stops@.contains(stop_id) <==> found.contains_key(stop_id),
            forall|k: int|
                at <= k < stops@.len() ==> results@.contains_key(#[trigger] stops@[k])
                    && results@[stops@[k]]@ == found[stops@[k]],
            route_result_views(routes@) == results_for(found, stops@.take(at as int)),
        decreases stops@.len() - at,
    {
        let stop_id: i32 = stops[at];
        let ghost before = results@;
        let route = map_remove(&mut results, stop_id).unwrap();
        proof {
            assert forall|k: int| at + 1 <= k < stops@.len() implies results@.contains_key(
                #[trigger] stops@[k],
            ) && results@[stops@[k]]@ == found[stops@[k]] by {
                assert(stops@[k] != stops@[at as int]);
                assert(before.contains_key(stops@[k]));
            }
            let shown = route_result_views(routes@);
            assert(stops@.take(at + 1) == stops@.take(at as int).push(stop_id));
            assert(route_result_views(routes@.push(route)) =~= shown.push(route@));
            assert(shown.push(route@) =~= results_for(found, stops@.take(at + 1)));
        }
        routes.push(route);
        at += 1;
    }
    proof {
        assert(stops@.take(at as int) == stops@);
        let args = RoutingAlgorithmArgs::spec_to_reachable_stops(
            DateTime::of_timestamp(departure_at.timestamp() + time_limit),
        );
        let solved = compute_routing_spec(*timetable, departure_stop_id, departure_at, args);
        let query = Query {
            departure_stop_id,
            departure_at: departure_at.timestamp(),
            arrival_stop_id: None,
        };
        assert forall|i: int| 0 <= i < routes@.len() implies {
            let route = (#[trigger] routes@[i])@;
            &&& route.sections.len() > 0
            &&& route.sections[0].departure_stop_id == departure_stop_id
            &&& route.departure_at.wf()
            &&& route.arrival_at.wf()
            &&& route.arrival_at.timestamp() <= departure_at.timestamp() + time_limit
            &&& timetable.is_chronological() ==> departure_at.timestamp()
                <= route.departure_at.timestamp() <= route.arrival_at.timestamp()
            &&& 1 <= ride_results(route.sections).len() <= MAXIMUM_NUMBER_OF_EXPLORABLE_CONNECTIONS
        } by {
            let stop_id = stops@[i];
            assert(route_result_views(routes@)[i] == results_for(found, stops@)[i]);
            assert(stops@.contains(stop_id));
            assert(found.contains_key(stop_id));
            assert(solved.contains_key(stop_id));
            assert(solved[stop_id].rides().len() <= MAXIMUM_NUMBER_OF_EXPLORABLE_CONNECTIONS);
            lemma_result_of_solution(*timetable, solved[stop_id], query);
        }
    }
    routes
}

} // verus!
