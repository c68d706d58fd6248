//! Which routes count as found: when a route has reached a stop of interest,
//! what the route to that stop is, and whether it is better than the one
//! known so far.
//!
//! Of two routes to a stop the better is the one that arrives earlier; of two
//! that arrive together the one with fewer rides; of two with as many rides
//! the one whose rides, taken in order, first pass more stops.
use crate::collections::{map_get, map_insert, set_contains};
use crate::routing::query::{
    all_solve, lemma_update_arrival_stop_rides, lemma_update_arrival_stop_solves,
    lemma_walked_to_the_stop, solutions_ride_at_most, Query,
};
use crate::routing::models::{
    Route, RouteSection, RouteView, RoutingAlgorithmArgs, RoutingAlgorithmMode,
};
use crate::routing::route_impl::{
    lemma_is_new_at_prefix,
    lemma_ride_advances,
    lemma_same_departure,
    lemma_was_at_before_prefix,
};
use crate::timetable::{lemma_first_position, JourneyRouteEntry, Timetable};
use crate::utils::DateTime;
use crate::utils::lemma_timestamp_is_injective;
use rustc_hash::FxHashMap;
use vstd::prelude::*;

verus! {

/// What each of the routes of a map holds.
pub open spec fn solution_views(solutions: Map<i32, Route>) -> Map<i32, RouteView> {
    solutions.map_values(|route: Route| route@)
}

/// The route known to a stop, if there is one.
pub open spec fn solution_to(solutions: Map<i32, RouteView>, stop_id: i32) -> Option<RouteView> {
    if solutions.contains_key(stop_id) {
        Some(solutions[stop_id])
    } else {
        None
    }
}

/// Every route of the map fits the timetable and has a ride.
pub open spec fn solutions_fit(timetable: Timetable, solutions: Map<i32, RouteView>) -> bool {
    forall|stop_id: i32| #[trigger]
        solutions.contains_key(stop_id) ==> solutions[stop_id].fits(timetable)
            && solutions[stop_id].has_ride()
}

/// No route is kept but under the stop `stop_id`.
pub open spec fn all_to(stop_id: i32, solutions: Map<i32, RouteView>) -> bool {
    forall|other: i32| #[trigger] solutions.contains_key(other) ==> other == stop_id
}

/// Every route is kept under the stop at which it arrives, and arrives by
/// `time_limit`.
pub open spec fn all_within(time_limit: DateTime, solutions: Map<i32, RouteView>) -> bool {
    forall|stop_id: i32| #[trigger]
        solutions.contains_key(stop_id) ==> solutions[stop_id].arrival_stop_id() == stop_id
            && solutions[stop_id].arrival_at().timestamp() <= time_limit.timestamp()
}

/// The routes are what the search is to find: routes to its stop, or routes
/// that arrive by its instant, each under the stop at which it arrives.
pub open spec fn solutions_meet(args: RoutingAlgorithmArgs, solutions: Map<i32, RouteView>) -> bool {
    match args.mode {
        RoutingAlgorithmMode::SolveFromDepartureStopToArrivalStop => all_to(
            args.arrival_stop_id.unwrap(),
            solutions,
        ),
        RoutingAlgorithmMode::SolveFromDepartureStopToReachableArrivalStops => all_within(
            args.time_limit.unwrap(),
            solutions,
        ),
    }
}

/// Number of calls of a ride, of which one of the two ends is counted.
pub open spec fn stop_count(timetable: Timetable, ride: RouteSection) -> int {
    timetable.journey(ride.journey_id.unwrap()).count_stops_spec(
        ride.departure_stop_id,
        ride.arrival_stop_id,
    )
}

/// Whether, from the ride `from` on, the first ride of `rides_1` that does
/// not pass as many stops as the ride in the same place of `rides_2` passes
/// more.
pub open spec fn passes_more_stops(
    timetable: Timetable,
    rides_1: Seq<RouteSection>,
    rides_2: Seq<RouteSection>,
    from: int,
) -> bool
    decreases rides_1.len() - from,
{
    if from < 0 || from >= rides_1.len() || from >= rides_2.len() {
        false
    } else if stop_count(timetable, rides_1[from]) != stop_count(timetable, rides_2[from]) {
        stop_count(timetable, rides_1[from]) > stop_count(timetable, rides_2[from])
    } else {
        passes_more_stops(timetable, rides_1, rides_2, from + 1)
    }
}

/// Whether `candidate` is the better route of the two.
pub open spec fn is_better(timetable: Timetable, candidate: RouteView, solution: RouteView) -> bool {
    if candidate.arrival_at().timestamp() != solution.arrival_at().timestamp() {
        candidate.arrival_at().timestamp() < solution.arrival_at().timestamp()
    } else if candidate.rides().len() != solution.rides().len() {
        candidate.rides().len() < solution.rides().len()
    } else {
        passes_more_stops(timetable, candidate.rides(), solution.rides(), 0)
    }
}

/// Whether a route is nothing but a walk.
pub open spec fn is_single_walk(route: RouteView) -> bool {
    route.sections.len() == 1 && route.last_section().journey_id.is_none()
}

/// Whether `candidate` is to replace the route known so far: it is not a
/// single walk, and no route is known or it is the better one.
pub open spec fn is_improving_solution_spec(
    timetable: Timetable,
    candidate: RouteView,
    solution: Option<RouteView>,
) -> bool {
    if is_single_walk(candidate) {
        false
    } else {
        match solution {
            Some(known) => is_better(timetable, candidate, known),
            None => true,
        }
    }
}

/// Whether a route that has not reached the stop may still lead to a route
/// as good as the one known: none is known, or it has arrived no later.
pub open spec fn can_improve_solution_spec(route: RouteView, solution: Option<RouteView>) -> bool {
    match solution {
        Some(known) => route.arrival_at().timestamp() <= known.arrival_at().timestamp(),
        None => true,
    }
}

/// `route` with its last ride ended at `arrival_stop_id`, a stop between the
/// two ends of that ride or its end; `None` where the ride does not reach the
/// stop.
pub open spec fn update_arrival_stop_spec(
    timetable: Timetable,
    route: RouteView,
    arrival_stop_id: i32,
) -> Option<RouteView> {
    let last = route.last_section();
    let journey = timetable.journey(last.journey_id.unwrap());
    let at = journey.arrival_position(arrival_stop_id);
    if journey.departure_position(last.departure_stop_id) < at <= journey.arrival_position(
        last.arrival_stop_id,
    ) {
        match journey.arrival_at_with_origin_spec(
            arrival_stop_id,
            last.arrival_at.date,
            false,
            last.arrival_stop_id,
        ) {
            Some(arrival_at) => Some(
                RouteView {
                    sections: route.sections.update(
                        route.sections.len() - 1,
                        RouteSection { arrival_stop_id, arrival_at, ..last },
                    ),
                    visited_stops: route.visited_stops,
                },
            ),
            None => None,
        }
    } else {
        None
    }
}

/// The routes known after `candidate` has been looked at: it replaces the
/// route to its stop where it arrives by `time_limit` and is to replace it.
pub open spec fn evaluate_candidate_spec(
    timetable: Timetable,
    candidate: RouteView,
    solutions: Map<i32, RouteView>,
    time_limit: DateTime,
) -> Map<i32, RouteView> {
    if candidate.arrival_at().timestamp() > time_limit.timestamp() {
        solutions
    } else if is_improving_solution_spec(
        timetable,
        candidate,
        solution_to(solutions, candidate.arrival_stop_id()),
    ) {
        solutions.insert(candidate.arrival_stop_id(), candidate)
    } else {
        solutions
    }
}

/// The routes known after `route`, ended at each of the calls in turn, has
/// been looked at.
pub open spec fn evaluate_calls_spec(
    timetable: Timetable,
    route: RouteView,
    calls: Seq<JourneyRouteEntry>,
    solutions: Map<i32, RouteView>,
    time_limit: DateTime,
) -> Map<i32, RouteView>
    decreases calls.len(),
{
    if calls.len() == 0 {
        solutions
    } else {
        let before = evaluate_calls_spec(timetable, route, calls.drop_last(), solutions, time_limit);
        match update_arrival_stop_spec(timetable, route, calls.last().stop_id) {
            Some(candidate) => evaluate_candidate_spec(timetable, candidate, before, time_limit),
            None => before,
        }
    }
}

/// In a search for the stop `arrival_stop_id`: the routes known after `route`
/// has been looked at, and whether the search goes on from `route`.
pub open spec fn one_to_one_spec(
    timetable: Timetable,
    route: RouteView,
    solutions: Map<i32, RouteView>,
    arrival_stop_id: i32,
) -> (Map<i32, RouteView>, bool) {
    let solution = solution_to(solutions, arrival_stop_id);
    if !route.visited_stops.contains(arrival_stop_id) {
        (solutions, can_improve_solution_spec(route, solution))
    } else {
        let candidate = if route.last_section().journey_id.is_none() {
            Some(route)
        } else {
            update_arrival_stop_spec(timetable, route, arrival_stop_id)
        };
        match candidate {
            Some(found) => if is_improving_solution_spec(timetable, found, solution) {
                (solutions.insert(arrival_stop_id, found), false)
            } else {
                (solutions, false)
            },
            None => (solutions, false),
        }
    }
}

/// In a search for the stops that can be reached by `time_limit`: the routes
/// known after `route` has been looked at, and whether the search goes on
/// from `route`.
pub open spec fn one_to_many_spec(
    timetable: Timetable,
    route: RouteView,
    solutions: Map<i32, RouteView>,
    time_limit: DateTime,
) -> (Map<i32, RouteView>, bool) {
    let last = route.last_section();
    (
        match last.journey_id {
            Some(id) => evaluate_calls_spec(
                timetable,
                route,
                timetable.journey(id).route_section_spec(
                    last.departure_stop_id,
                    last.arrival_stop_id,
                ),
                solutions,
                time_limit,
            ),
            None => evaluate_candidate_spec(timetable, route, solutions, time_limit),
        },
        route.arrival_at().timestamp() < time_limit.timestamp(),
    )
}

/// A route that fits the timetable and is not a single walk has a ride.
pub proof fn lemma_has_ride(timetable: Timetable, route: RouteView)
    requires
        route.fits(timetable),
        !is_single_walk(route),
    ensures
        route.has_ride(),
{
    if !route.sections[0].is_ride() {
        assert(route.rides_at(0));
    }
}

/// What [`update_arrival_stop_spec`] returns fits the timetable where the
/// route did.
pub proof fn lemma_update_arrival_stop_fits(
    timetable: Timetable,
    route: RouteView,
    arrival_stop_id: i32,
)
    requires
        timetable.wf(),
        route.fits(timetable),
        route.last_section().is_ride(),
        update_arrival_stop_spec(timetable, route, arrival_stop_id).is_some(),
    ensures
        update_arrival_stop_spec(timetable, route, arrival_stop_id).unwrap().fits(timetable),
        update_arrival_stop_spec(timetable, route, arrival_stop_id).unwrap().has_ride(),
{
    let last = route.sections.len() - 1;
    let old_last = route.sections[last];
    assert(old_last.fits(timetable));
    let journey = timetable.journey(old_last.journey_id.unwrap());
    let new = update_arrival_stop_spec(timetable, route, arrival_stop_id).unwrap();
    let new_last = new.sections[last];
    lemma_first_position(journey.stop_ids(), arrival_stop_id, 1);
    lemma_first_position(journey.stop_ids(), old_last.arrival_stop_id, 1);
    assert(new_last.fits(timetable));
    assert forall|i: int| 0 <= i < new.sections.len() implies (#[trigger] new.sections[i]).fits(
        timetable,
    ) by {
        if i < last {
            assert(new.sections[i] == route.sections[i]);
            assert(route.sections[i].fits(timetable));
        }
    }
    assert(new.is_continuous()) by {
        assert forall|i: int| 0 <= i < new.sections.len() - 1 implies #[trigger] new.is_joined_at(
            i,
        ) by {
            assert(route.is_joined_at(i));
        }
    }
    assert(new.alternates()) by {
        assert forall|i: int| 0 <= i < new.sections.len() - 1 implies #[trigger] new.rides_at(
            i,
        ) by {
            assert(route.rides_at(i));
        }
    }
    assert(new.has_visited_its_stops(timetable)) by {
        assert forall|i: int, id: i32|
            0 <= i < new.sections.len() && #[trigger] new.passes(
                timetable,
                i,
                id,
            ) implies new.visited_stops.contains(id) by {
            if i < last {
                assert(new.sections[i] == route.sections[i]);
                assert(route.passes(timetable, i, id));
            } else {
                let begin = journey.departure_position(old_last.departure_stop_id);
                let end = journey.arrival_position(arrival_stop_id);
                let k = choose|k: int|
                    begin < k <= end && 0 <= k < journey.route@.len() && (
                    #[trigger] journey.route@[k]).stop_id == id;
                assert(old_last.stops(timetable).contains(id));
                assert(route.passes(timetable, last, id));
            }
        }
    }
    assert(new.sections[last].is_ride());
    assert(new.never_returns(timetable)) by {
        assert forall|j: int| 0 <= j < new.sections.len() implies #[trigger] new.is_new_at(
            timetable,
            j,
        ) by {
            assert(route.is_new_at(timetable, j));
            if j < last {
                lemma_is_new_at_prefix(timetable, route, new, j);
            } else if !new.is_round_trip_at(timetable, j) {
                assert forall|id: i32| #[trigger]
                    new.passes(timetable, j, id) implies !new.was_at_before(timetable, j, id) by {
                    lemma_was_at_before_prefix(timetable, route, new, j, id);
                    let begin = journey.departure_position(old_last.departure_stop_id);
                    let end = journey.arrival_position(arrival_stop_id);
                    let k = choose|k: int|
                        begin < k <= end && 0 <= k < journey.route@.len() && (
                        #[trigger] journey.route@[k]).stop_id == id;
                    assert(old_last.stops(timetable).contains(id));
                    assert(route.passes(timetable, last, id));
                }
            }
        }
    }
    assert(new.is_shaped(timetable));
    lemma_same_departure(timetable, old_last, new_last);
    assert forall|i: int| 0 <= i < new.sections.len() - 1 implies #[trigger] new.changes_in_time_at(
        timetable,
        i,
    ) && new.boards_in_time_at(timetable, i) by {
        assert(new.sections[i] == route.sections[i]);
        assert(route.changes_in_time_at(timetable, i));
        if i + 1 < last {
            assert(new.sections[i + 1] == route.sections[i + 1]);
        }
    }
    if timetable.is_chronological() {
        lemma_ride_advances(timetable, new_last);
        assert forall|i: int| 0 <= i < new.sections.len() implies #[trigger] new.advances_at(
            timetable,
            i,
        ) by {
            if i < last {
                assert(new.sections[i] == route.sections[i]);
                if i >= 1 {
                    assert(new.sections[i - 1] == route.sections[i - 1]);
                }
                assert(route.advances_at(timetable, i));
            }
        }
    }
}

/// `route` with its last ride ended at `arrival_stop_id`; `None` where the
/// ride does not reach the stop.
pub fn update_arrival_stop(timetable: &Timetable, route: Route, arrival_stop_id: i32) -> (updated:
    Option<Route>)
    requires
        timetable.wf(),
        route@.fits(*timetable),
        route@.last_section().is_ride(),
    ensures
        updated.is_some() == update_arrival_stop_spec(
            *timetable,
            route@,
            arrival_stop_id,
        ).is_some(),
        updated matches Some(found) ==> Some(found@) == update_arrival_stop_spec(
            *timetable,
            route@,
            arrival_stop_id,
        ) && found@.fits(*timetable) && found@.has_ride() && found@.begins_like(
            *timetable,
            route@,
        ) && found@.arrival_stop_id() == arrival_stop_id && found@.rides().len()
            == route@.rides().len(),
{
    let mut route = route;
    let ghost before = route@;
    let last_section = *route.last_section();
    assert(before.sections[before.sections.len() - 1].fits(*timetable));
    let journey = last_section.journey(timetable).unwrap();
    let from: usize = journey.position_from(last_section.departure_stop_id(), 0);
    let at: usize = journey.position_from(arrival_stop_id, 1);
    let to: usize = journey.position_from(last_section.arrival_stop_id(), 1);
    if !(from < at && at <= to) {
        return None;
    }
    match journey.arrival_at_of_with_origin(
        arrival_stop_id,
        last_section.arrival_at().date(),
        false,
        last_section.arrival_stop_id(),
    ) {
        Some(arrival_at) => {
            route.set_last_arrival(arrival_stop_id, arrival_at);
            proof {
                assert(Some(route@) == update_arrival_stop_spec(
                    *timetable,
                    before,
                    arrival_stop_id,
                ));
                lemma_update_arrival_stop_fits(*timetable, before, arrival_stop_id);
                lemma_update_arrival_stop_solves(*timetable, before, arrival_stop_id);
                lemma_update_arrival_stop_rides(*timetable, before, arrival_stop_id);
            }
            Some(route)
        },
        None => None,
    }
}

/// Whether a route that has not reached the stop may still lead to a route
/// as good as the one known.
pub fn can_improve_solution(route: &Route, solution: Option<&Route>) -> (can: bool)
    requires
        route@.wf(),
        solution matches Some(known) ==> known@.wf(),
    ensures
        can == can_improve_solution_spec(
            route@,
            match solution {
                Some(known) => Some(known@),
                None => None,
            },
        ),
{
    match solution {
        Some(known) => route.arrival_at().is_at_or_before(known.arrival_at()),
        None => true,
    }
}

/// Number of calls of a ride, of which one of the two ends is counted.
fn count_stops(timetable: &Timetable, ride: &RouteSection) -> (count: usize)
    requires
        timetable.wf(),
        ride.journey_id matches Some(id) && timetable.has_journey(id),
    ensures
        count == stop_count(*timetable, *ride),
{
    let journey = ride.journey(timetable).unwrap();
    journey.count_stops(ride.departure_stop_id(), ride.arrival_stop_id())
}

/// Every one of the sections is a ride on a journey of the timetable.
pub open spec fn rides_are_known(timetable: Timetable, rides: Seq<RouteSection>) -> bool {
    forall|i: int|
        0 <= i < rides.len() ==> (#[trigger] rides[i]).journey_id.is_some()
            && timetable.has_journey(rides[i].journey_id.unwrap())
}

/// Every ride of a route that fits the timetable is on a journey of the
/// timetable.
pub proof fn lemma_rides_have_journeys(timetable: Timetable, route: RouteView)
    requires
        route.fits(timetable),
    ensures
        rides_are_known(timetable, route.rides()),
{
    let rides = route.rides();
    let pred = |section: RouteSection| section.is_ride();
    assert forall|i: int| 0 <= i < rides.len() implies (#[trigger] rides[i]).journey_id.is_some()
        && timetable.has_journey(rides[i].journey_id.unwrap()) by {
        route.sections.lemma_filter_pred(pred, i);
        assert(rides.contains(rides[i]));
        route.sections.lemma_filter_contains_rev(pred, rides[i]);
        assert(route.sections.contains(rides[i]));
        let k = choose|k: int| 0 <= k < route.sections.len() && route.sections[k] == rides[i];
        assert(route.sections[k].fits(timetable));
    }
}

/// Whether `candidate` is to replace the route known so far.
pub fn is_improving_solution(timetable: &Timetable, candidate: &Route, solution: Option<&Route>) -> (improving:
    bool)
    requires
        timetable.wf(),
        candidate@.wf(),
        rides_are_known(*timetable, candidate@.rides()),
        solution matches Some(known) ==> known@.wf() && rides_are_known(
            *timetable,
            known@.rides(),
        ),
    ensures
        improving == is_improving_solution_spec(
            *timetable,
            candidate@,
            match solution {
                Some(known) => Some(known@),
                None => None,
            },
        ),
{
    if candidate.sections().len() == 1 && candidate.last_section().journey_id().is_none() {
        return false;
    }
    let known = match solution {
        Some(known) => known,
        None => { return true; },
    };
    let t1 = candidate.arrival_at();
    let t2 = known.arrival_at();
    if t1 != t2 {
        proof {
            if t1.timestamp() == t2.timestamp() {
                lemma_timestamp_is_injective(t1, t2);
            }
        }
        return t1.is_before(t2);
    }
    let rides_1 = candidate.sections_having_journey();
    let rides_2 = known.sections_having_journey();
    if rides_1.len() != rides_2.len() {
        return rides_1.len() < rides_2.len();
    }
    let mut at: usize = 0;
    while at < rides_1.len()
        invariant
            at <= rides_1@.len() == rides_2@.len(),
            timetable.wf(),
            rides_1@ == candidate@.rides(),
            rides_2@ == known@.rides(),
            rides_are_known(*timetable, rides_1@),
            rides_are_known(*timetable, rides_2@),
            solution == Some(known),
            is_improving_solution_spec(*timetable, candidate@, Some(known@)) == passes_more_stops(
                *timetable,
                rides_1@,
                rides_2@,
                0,
            ),
            passes_more_stops(*timetable, rides_1@, rides_2@, 0) == passes_more_stops(
                *timetable,
                rides_1@,
                rides_2@,
                at as int,
            ),
        decreases rides_1@.len() - at,
    {
        assert(rides_1@[at as int].journey_id.is_some());
        assert(rides_2@[at as int].journey_id.is_some());
        let count_1: usize = count_stops(timetable, &rides_1[at]);
        let count_2: usize = count_stops(timetable, &rides_2[at]);
        assert(count_1 == stop_count(*timetable, rides_1@[at as int]));
        assert(count_2 == stop_count(*timetable, rides_2@[at as int]));
        if count_1 != count_2 {
            assert(passes_more_stops(*timetable, rides_1@, rides_2@, at as int) == (count_1
                > count_2));
            return count_1 > count_2;
        }
        at += 1;
    }
    false
}

/// Looks at `candidate`: it replaces the route known to its stop where it
/// arrives by `time_limit` and is to replace it.
fn evaluate_candidate(
    timetable: &Timetable,
    candidate: Route,
    solutions: &mut FxHashMap<i32, Route>,
    time_limit: DateTime,
)
    requires
        timetable.wf(),
        time_limit.wf(),
        candidate@.fits(*timetable),
        solutions_fit(*timetable, solution_views(old(solutions)@)),
        all_within(time_limit, solution_views(old(solutions)@)),
    ensures
        solution_views(final(solutions)@) == evaluate_candidate_spec(
            *timetable,
            candidate@,
            solution_views(old(solutions)@),
            time_limit,
        ),
        solutions_fit(*timetable, solution_views(final(solutions)@)),
        all_within(time_limit, solution_views(final(solutions)@)),
        forall|query: Query| #![trigger all_solve(*timetable, solution_views(final(solutions)@), query)]
            all_solve(*timetable, solution_views(old(solutions)@), query) && candidate@.solves(
                *timetable,
                query,
            ) ==> all_solve(*timetable, solution_views(final(solutions)@), query),
        forall|count: int| #![trigger solutions_ride_at_most(solution_views(final(solutions)@), count)]
            solutions_ride_at_most(solution_views(old(solutions)@), count) && candidate@.rides().len()
                <= count ==> solutions_ride_at_most(solution_views(final(solutions)@), count),
{
    if time_limit.is_before(candidate.arrival_at()) {
        return ;
    }
    let arrival_stop_id: i32 = candidate.arrival_stop_id();
    let ghost before = solution_views(solutions@);
    let ghost view = candidate@;
    let improving: bool = {
        let solution = map_get(solutions, arrival_stop_id);
        proof {
            lemma_rides_have_journeys(*timetable, candidate@);
            if solutions@.contains_key(arrival_stop_id) {
                assert(before.contains_key(arrival_stop_id));
                lemma_rides_have_journeys(*timetable, before[arrival_stop_id]);
            }
        }
        is_improving_solution(timetable, &candidate, solution)
    };
    if improving {
        map_insert(solutions, arrival_stop_id, candidate);
        proof {
            lemma_has_ride(*timetable, view);
            assert(solution_views(solutions@) =~= before.insert(arrival_stop_id, view));
            assert forall|stop_id: i32| #[trigger]
                solution_views(solutions@).contains_key(stop_id) implies solution_views(
                solutions@,
            )[stop_id].fits(*timetable) && solution_views(solutions@)[stop_id].has_ride()
                && solution_views(solutions@)[stop_id].arrival_stop_id() == stop_id
                && solution_views(solutions@)[stop_id].arrival_at().timestamp()
                <= time_limit.timestamp() by {
                if stop_id != arrival_stop_id {
                    assert(before.contains_key(stop_id));
                }
            }
            assert forall|count: int| #![trigger solutions_ride_at_most(solution_views(solutions@), count)]
                solutions_ride_at_most(before, count) && view.rides().len()
                    <= count implies solutions_ride_at_most(solution_views(solutions@), count) by {
                assert forall|stop_id: i32| #[trigger]
                    solution_views(solutions@).contains_key(stop_id) implies solution_views(
                    solutions@,
                )[stop_id].rides().len() <= count by {
                    if stop_id != arrival_stop_id {
                        assert(before.contains_key(stop_id));
                    }
                }
            }
            assert forall|query: Query| #![trigger all_solve(*timetable, solution_views(solutions@), query)]
                all_solve(*timetable, before, query) && view.solves(
                    *timetable,
                    query,
                ) implies all_solve(*timetable, solution_views(solutions@), query) by {
                assert forall|stop_id: i32| #[trigger]
                    solution_views(solutions@).contains_key(stop_id) implies solution_views(
                    solutions@,
                )[stop_id].solves(*timetable, query) by {
                    if stop_id != arrival_stop_id {
                        assert(before.contains_key(stop_id));
                    }
                }
            }
        }
    }
}

/// In a search for the stop `arrival_stop_id`: looks at `route`, and returns
/// whether the search goes on from it.
pub fn can_continue_exploration_one_to_one(
    timetable: &Timetable,
    route: &Route,
    solutions: &mut FxHashMap<i32, Route>,
    arrival_stop_id: i32,
) -> (go_on: bool)
    requires
        timetable.wf(),
        route@.fits(*timetable),
        solutions_fit(*timetable, solution_views(old(solutions)@)),
        all_to(arrival_stop_id, solution_views(old(solutions)@)),
    ensures
        (solution_views(final(solutions)@), go_on) == one_to_one_spec(
            *timetable,
            route@,
            solution_views(old(solutions)@),
            arrival_stop_id,
        ),
        solutions_fit(*timetable, solution_views(final(solutions)@)),
        all_to(arrival_stop_id, solution_views(final(solutions)@)),
        go_on ==> !route@.visited_stops.contains(arrival_stop_id),
        forall|query: Query| #![trigger all_solve(*timetable, solution_views(final(solutions)@), query)]
            query.arrival_stop_id == Some(arrival_stop_id) && all_solve(
                *timetable,
                solution_views(old(solutions)@),
                query,
            ) && route@.answers(*timetable, query) ==> all_solve(
                *timetable,
                solution_views(final(solutions)@),
                query,
            ),
        forall|count: int| #![trigger solutions_ride_at_most(solution_views(final(solutions)@), count)]
            solutions_ride_at_most(solution_views(old(solutions)@), count) && route@.rides().len()
                <= count ==> solutions_ride_at_most(solution_views(final(solutions)@), count),
{
    let ghost before = solution_views(solutions@);
    proof {
        if solutions@.contains_key(arrival_stop_id) {
            assert(before.contains_key(arrival_stop_id));
        }
    }
    if !set_contains(route.visited_stops(), arrival_stop_id) {
        let solution = map_get(solutions, arrival_stop_id);
        return can_improve_solution(route, solution);
    }
    let candidate: Option<Route> = if route.last_section().journey_id().is_none() {
        Some(route.clone())
    } else {
        update_arrival_stop(timetable, route.clone(), arrival_stop_id)
    };
    match candidate {
        Some(found) => {
            let ghost view = found@;
            let improving: bool = {
                let solution = map_get(solutions, arrival_stop_id);
                proof {
                    lemma_rides_have_journeys(*timetable, found@);
                    if before.contains_key(arrival_stop_id) {
                        lemma_rides_have_journeys(*timetable, before[arrival_stop_id]);
                    }
                }
                is_improving_solution(timetable, &found, solution)
            };
            if improving {
                proof {
                    lemma_has_ride(*timetable, view);
                }
                map_insert(solutions, arrival_stop_id, found);
                proof {
                    assert(solution_views(solutions@) =~= before.insert(arrival_stop_id, view));
                    assert forall|stop_id: i32| #[trigger]
                        solution_views(solutions@).contains_key(stop_id) implies solution_views(
                        solutions@,
                    )[stop_id].fits(*timetable) && solution_views(solutions@)[stop_id].has_ride() by {
                        if stop_id != arrival_stop_id {
                            assert(before.contains_key(stop_id));
                        }
                    }
                    assert forall|count: int| #![trigger solutions_ride_at_most(solution_views(solutions@), count)]
                        solutions_ride_at_most(before, count) && route@.rides().len()
                            <= count implies solutions_ride_at_most(
                        solution_views(solutions@),
                        count,
                    ) by {
                        assert(view.rides().len() == route@.rides().len());
                        assert forall|stop_id: i32| #[trigger]
                            solution_views(solutions@).contains_key(stop_id) implies solution_views(
                            solutions@,
                        )[stop_id].rides().len() <= count by {
                            if stop_id != arrival_stop_id {
                                assert(before.contains_key(stop_id));
                            }
                        }
                    }
                    assert forall|query: Query| #![trigger all_solve(*timetable, solution_views(solutions@), query)]
                        query.arrival_stop_id == Some(arrival_stop_id) && all_solve(
                            *timetable,
                            before,
                            query,
                        ) && route@.answers(*timetable, query) implies all_solve(
                        *timetable,
                        solution_views(solutions@),
                        query,
                    ) by {
                        if route@.last_section().journey_id.is_none() {
                            lemma_walked_to_the_stop(*timetable, route@, query);
                        }
                        assert(view.solves(*timetable, query));
                        assert forall|stop_id: i32| #[trigger]
                            solution_views(solutions@).contains_key(stop_id) implies solution_views(
                            solutions@,
                        )[stop_id].solves(*timetable, query) by {
                            if stop_id != arrival_stop_id {
                                assert(before.contains_key(stop_id));
                            }
                        }
                    }
                }
            }
            false
        },
        None => false,
    }
}

/// In a search for the stops that can be reached by `time_limit`: looks at
/// `route`, ended at each stop of its last ride in turn, and returns whether
/// the search goes on from it.
pub fn can_continue_exploration_one_to_many(
    timetable: &Timetable,
    route: &Route,
    solutions: &mut FxHashMap<i32, Route>,
    time_limit: DateTime,
) -> (go_on: bool)
    requires
        timetable.wf(),
        time_limit.wf(),
        route@.fits(*timetable),
        solutions_fit(*timetable, solution_views(old(solutions)@)),
        all_within(time_limit, solution_views(old(solutions)@)),
    ensures
        (solution_views(final(solutions)@), go_on) == one_to_many_spec(
            *timetable,
            route@,
            solution_views(old(solutions)@),
            time_limit,
        ),
        solutions_fit(*timetable, solution_views(final(solutions)@)),
        all_within(time_limit, solution_views(final(solutions)@)),
        forall|query: Query| #![trigger all_solve(*timetable, solution_views(final(solutions)@), query)]
            query.arrival_stop_id.is_none() && all_solve(
                *timetable,
                solution_views(old(solutions)@),
                query,
            ) && route@.answers(*timetable, query) ==> all_solve(
                *timetable,
                solution_views(final(solutions)@),
                query,
            ),
        forall|count: int| #![trigger solutions_ride_at_most(solution_views(final(solutions)@), count)]
            solutions_ride_at_most(solution_views(old(solutions)@), count) && route@.rides().len()
                <= count ==> solutions_ride_at_most(solution_views(final(solutions)@), count),
{
    let ghost before = solution_views(solutions@);
    let last_section = *route.last_section();
    assert(route@.sections[route@.sections.len() - 1].fits(*timetable));
    match last_section.journey(timetable) {
        None => {
            evaluate_candidate(timetable, route.clone(), solutions, time_limit);
        },
        Some(journey) => {
            let calls = journey.route_section(
                last_section.departure_stop_id(),
                last_section.arrival_stop_id(),
            );
            let mut at: usize = 0;
            while at < calls.len()
                invariant
                    at <= calls@.len(),
                    timetable.wf(),
                    time_limit.wf(),
                    route@.fits(*timetable),
                    route@.last_section().is_ride(),
                    solutions_fit(*timetable, solution_views(solutions@)),
                    all_within(time_limit, solution_views(solutions@)),
                    forall|query: Query| #![trigger all_solve(*timetable, solution_views(solutions@), query)]
                        query.arrival_stop_id.is_none() && all_solve(*timetable, before, query)
                            && route@.answers(*timetable, query) ==> all_solve(
                            *timetable,
                            solution_views(solutions@),
                            query,
                        ),
                    forall|count: int| #![trigger solutions_ride_at_most(solution_views(solutions@), count)]
                        solutions_ride_at_most(before, count) && route@.rides().len() <= count
                            ==> solutions_ride_at_most(solution_views(solutions@), count),
                    solution_views(solutions@) == evaluate_calls_spec(
                        *timetable,
                        route@,
                        calls@.take(at as int),
                        before,
                        time_limit,
                    ),
                decreases calls@.len() - at,
            {
                proof {
                    assert(calls@.take(at + 1).drop_last() == calls@.take(at as int));
                    assert(calls@.take(at + 1).last() == calls@[at as int]);
                }
                match update_arrival_stop(timetable, route.clone(), calls[at].stop_id) {
                    Some(candidate) => {
                        evaluate_candidate(timetable, candidate, solutions, time_limit);
                    },
                    None => {},
                }
                at += 1;
            }
            assert(calls@.take(at as int) == calls@);
        },
    }
    route.arrival_at().is_before(time_limit)
}

} // verus!
