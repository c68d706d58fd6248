//! One round of the search: every route of the round is looked at in the
//! order of its arrival, carried on along its journey and on foot, and
//! extended by every journey that it can board.
//!
//! A round works on four things (an [`Exploration`]): the routes still to be
//! looked at, the routes found for the next round, the earliest arrival known
//! at each stop, and the routes found to the stops of interest. Looking at one
//! route is one step ([`explore_step`]); a round is as many steps as it takes
//! until no route is left.
use crate::collections::{map_get, map_insert, set_insert};
use crate::routing::connections::{all_routes_fit, get_connections, get_connections_spec, lemma_arrival_is_near};
use crate::routing::dominance::{
    lemma_round_keeps_what_is_known, lemma_round_records_every_arrival, only_improves,
    only_lowers, records_the_arrivals,
};
use crate::routing::models::{
    Route, RouteSection, RouteView, RoutingAlgorithmArgs, RoutingAlgorithmMode,
};
use crate::routing::query::{
    all_answer, all_ride_at_most, all_solve, lemma_extend_answers, lemma_extend_rides,
    lemma_sort_answers, lemma_sort_rides, lemma_sorted_insert_answers, lemma_sorted_insert_rides,
    lemma_successor_answers, lemma_walk_answers, lemma_walk_rides, solutions_ride_at_most, Query,
};
use crate::routing::route_impl::{
    extend_spec, is_exchange_point, lemma_arrival_position_of_call,
    lemma_departure_position_of_arrival, lemma_extend_fits, lemma_is_new_at_prefix,
    lemma_next_halt, lemma_was_at_before_is_visited, lemma_was_at_before_prefix, next_halt,
};
use crate::routing::solutions::{
    can_continue_exploration_one_to_many, can_continue_exploration_one_to_one, one_to_many_spec,
    one_to_one_spec, solution_views, solutions_fit, solutions_meet,
};
use crate::routing::utils::{
    all_wf, clone_update_route, clone_update_spec, get_stop_connections,
    lemma_insert_position_in_range, lemma_sorted_insert_keeps, sort_routes, sort_spec,
    sorted_insert, sorted_insert_spec, stop_connections_spec, views,
};
use crate::timetable::{lemma_first_position, Journey, StopConnection, Timetable};
use crate::utils::{add_minutes_to_date_time, DateTime};
use crate::routing::utils::insert_position;
use crate::collections::set_contains;
use rustc_hash::{FxHashMap, FxHashSet};
use vstd::prelude::*;

verus! {

/// What a round of the search works on.
pub struct Exploration {
    /// The routes still to be looked at, in the order of their arrival.
    pub frontier: Seq<RouteView>,
    /// The routes found for the next round.
    pub found: Seq<RouteView>,
    /// The earliest arrival known at each stop.
    pub earliest_arrivals: Map<i32, DateTime>,
    /// The best route known to each stop of interest.
    pub solutions: Map<i32, RouteView>,
}

/// The routes known after `route` has been looked at, and whether the search
/// goes on from `route`.
pub open spec fn can_continue_spec(
    timetable: Timetable,
    args: RoutingAlgorithmArgs,
    route: RouteView,
    solutions: Map<i32, RouteView>,
) -> (Map<i32, RouteView>, bool) {
    match args.mode {
        RoutingAlgorithmMode::SolveFromDepartureStopToArrivalStop => one_to_one_spec(
            timetable,
            route,
            solutions,
            args.arrival_stop_id.unwrap(),
        ),
        RoutingAlgorithmMode::SolveFromDepartureStopToReachableArrivalStops => one_to_many_spec(
            timetable,
            route,
            solutions,
            args.time_limit.unwrap(),
        ),
    }
}

/// The routes to look at, with `route` carried on along the journey of its
/// last ride to the next stop at which a ride can end, if there is one.
pub open spec fn explore_more_spec(timetable: Timetable, route: RouteView, frontier: Seq<RouteView>)
    -> Seq<RouteView> {
    match route.last_section().journey_id {
        Some(id) => match extend_spec(timetable, route, id, route.arrival_at().date, false) {
            Some(extended) => sorted_insert_spec(frontier, extended),
            None => frontier,
        },
        None => frontier,
    }
}

/// The earliest arrivals known after `route` has arrived, and whether the
/// search boards journeys from there: passengers can change at the stop, and
/// no route has arrived there as early.
pub open spec fn can_explore_connections_spec(
    timetable: Timetable,
    route: RouteView,
    earliest_arrivals: Map<i32, DateTime>,
) -> (Map<i32, DateTime>, bool) {
    let stop_id = route.arrival_stop_id();
    if !is_exchange_point(timetable, stop_id) {
        (earliest_arrivals, false)
    } else if earliest_arrivals.contains_key(stop_id) && route.arrival_at().timestamp()
        >= earliest_arrivals[stop_id].timestamp() {
        (earliest_arrivals, false)
    } else {
        (earliest_arrivals.insert(stop_id, route.arrival_at()), true)
    }
}

/// `route` with the walk `connection` from the stop at which it has arrived.
pub open spec fn walk_by(route: RouteView, connection: StopConnection) -> RouteView {
    clone_update_spec(
        route,
        RouteSection {
            journey_id: None,
            departure_stop_id: connection.stop_id_1,
            arrival_stop_id: connection.stop_id_2,
            arrival_at: DateTime::of_timestamp(
                route.arrival_at().timestamp() + 60 * connection.duration,
            ),
            duration: Some(connection.duration),
        },
        false,
        Set::empty().insert(connection.stop_id_2),
    )
}

/// Whether the search follows a walk: it leads to a stop of the timetable at
/// which the route has not been.
pub open spec fn is_new_walk(timetable: Timetable, route: RouteView, connection: StopConnection)
    -> bool {
    timetable.has_stop(connection.stop_id_2) && !route.visited_stops.contains(connection.stop_id_2)
}

/// The routes to look at, with `route` carried on by each of the walks that
/// the search follows.
pub open spec fn nearby_by(
    timetable: Timetable,
    route: RouteView,
    connections: Seq<StopConnection>,
    frontier: Seq<RouteView>,
) -> Seq<RouteView>
    decreases connections.len(),
{
    if connections.len() == 0 {
        frontier
    } else {
        let before = nearby_by(timetable, route, connections.drop_last(), frontier);
        if is_new_walk(timetable, route, connections.last()) {
            sorted_insert_spec(before, walk_by(route, connections.last()))
        } else {
            before
        }
    }
}

/// The routes to look at, with `route` carried on by each walk that leaves
/// the stop at which it has arrived; none where it has arrived there on foot.
pub open spec fn explore_nearby_spec(timetable: Timetable, route: RouteView, frontier: Seq<RouteView>)
    -> Seq<RouteView> {
    if route.last_section().journey_id.is_none() {
        frontier
    } else {
        nearby_by(
            timetable,
            route,
            stop_connections_spec(timetable, route.arrival_stop_id()),
            frontier,
        )
    }
}

/// What a round works on after the first of its routes has been looked at.
pub open spec fn explore_step(
    timetable: Timetable,
    args: RoutingAlgorithmArgs,
    journeys_to_ignore: Set<i32>,
    state: Exploration,
) -> Exploration {
    if state.frontier.len() == 0 {
        state
    } else {
        let route = state.frontier[0];
        let rest = state.frontier.drop_first();
        let (solutions, go_on) = can_continue_spec(timetable, args, route, state.solutions);
        if !go_on || route.last_section().departure_stop_id
            == route.last_section().arrival_stop_id {
            Exploration { frontier: rest, solutions, ..state }
        } else {
            let carried_on = explore_more_spec(timetable, route, rest);
            let (earliest_arrivals, boards) = can_explore_connections_spec(
                timetable,
                route,
                state.earliest_arrivals,
            );
            if !boards {
                Exploration { frontier: carried_on, solutions, ..state }
            } else {
                Exploration {
                    frontier: explore_nearby_spec(timetable, route, carried_on),
                    found: state.found + get_connections_spec(
                        timetable,
                        route,
                        journeys_to_ignore,
                    ),
                    earliest_arrivals,
                    solutions,
                }
            }
        }
    }
}

/// What a round works on after `count` steps.
pub open spec fn explore_steps(
    timetable: Timetable,
    args: RoutingAlgorithmArgs,
    journeys_to_ignore: Set<i32>,
    state: Exploration,
    count: nat,
) -> Exploration
    decreases count,
{
    if count == 0 {
        state
    } else {
        explore_step(
            timetable,
            args,
            journeys_to_ignore,
            explore_steps(timetable, args, journeys_to_ignore, state, (count - 1) as nat),
        )
    }
}

/// Whether `outcome` is what a round ends with: it is reached by some number
/// of steps, and no route is left to look at.
pub open spec fn is_explored(
    timetable: Timetable,
    args: RoutingAlgorithmArgs,
    journeys_to_ignore: Set<i32>,
    state: Exploration,
    outcome: Exploration,
) -> bool {
    exists|count: nat|
        outcome == #[trigger] explore_steps(timetable, args, journeys_to_ignore, state, count)
            && outcome.frontier.len() == 0
}

/// Once no route is left, further steps change nothing.
pub proof fn lemma_explore_steps_rest(
    timetable: Timetable,
    args: RoutingAlgorithmArgs,
    journeys_to_ignore: Set<i32>,
    state: Exploration,
    count: nat,
    more: nat,
)
    requires
        explore_steps(timetable, args, journeys_to_ignore, state, count).frontier.len() == 0,
    ensures
        explore_steps(timetable, args, journeys_to_ignore, state, count + more) == explore_steps(
            timetable,
            args,
            journeys_to_ignore,
            state,
            count,
        ),
    decreases more,
{
    if more > 0 {
        lemma_explore_steps_rest(
            timetable,
            args,
            journeys_to_ignore,
            state,
            count,
            (more - 1) as nat,
        );
    }
}

/// A round ends in one way only.
pub proof fn lemma_explored_is_unique(
    timetable: Timetable,
    args: RoutingAlgorithmArgs,
    journeys_to_ignore: Set<i32>,
    state: Exploration,
    first: Exploration,
    second: Exploration,
)
    requires
        is_explored(timetable, args, journeys_to_ignore, state, first),
        is_explored(timetable, args, journeys_to_ignore, state, second),
    ensures
        first == second,
{
    let m = choose|count: nat|
        first == #[trigger] explore_steps(timetable, args, journeys_to_ignore, state, count)
            && first.frontier.len() == 0;
    let n = choose|count: nat|
        second == #[trigger] explore_steps(timetable, args, journeys_to_ignore, state, count)
            && second.frontier.len() == 0;
    if m <= n {
        lemma_explore_steps_rest(timetable, args, journeys_to_ignore, state, m, (n - m) as nat);
    } else {
        lemma_explore_steps_rest(timetable, args, journeys_to_ignore, state, n, (m - n) as nat);
    }
}

/// What a round ends with.
pub open spec fn explored(
    timetable: Timetable,
    args: RoutingAlgorithmArgs,
    journeys_to_ignore: Set<i32>,
    state: Exploration,
) -> Exploration {
    choose|outcome: Exploration| is_explored(timetable, args, journeys_to_ignore, state, outcome)
}

/// The journeys of the last rides of the routes.
pub open spec fn last_journeys(routes: Seq<RouteView>) -> Set<i32> {
    Set::new(
        |journey_id: i32|
            exists|i: int|
                0 <= i < routes.len() && (#[trigger] routes[i]).last_section().journey_id == Some(
                    journey_id,
                ),
    )
}

/// Every instant of the map is at a time of day.
pub open spec fn arrivals_wf(arrivals: Map<i32, DateTime>) -> bool {
    forall|stop_id: i32| #[trigger] arrivals.contains_key(stop_id) ==> arrivals[stop_id].wf()
}

/// What looking at the call `at` of a journey can add to the routes to look
/// at: the route carried on, the route itself, and a route for each walk from
/// there.
pub open spec fn weight(timetable: Timetable, journey: Journey, at: int) -> int {
    2 + timetable.connections_at(journey.route@[at].stop_id).len() as int
}

/// Sum of the weights of the calls from `from` on.
pub open spec fn remaining_weight(timetable: Timetable, journey: Journey, from: int) -> int
    decreases journey.route@.len() - from,
{
    if from < 0 || from >= journey.route@.len() {
        0
    } else {
        weight(timetable, journey, from) + remaining_weight(timetable, journey, from + 1)
    }
}

/// A bound on the number of routes that looking at `route` can lead to within
/// a round.
pub open spec fn potential(timetable: Timetable, route: RouteView) -> int {
    match route.last_section().journey_id {
        Some(id) => remaining_weight(
            timetable,
            timetable.journey(id),
            timetable.journey(id).arrival_position(route.arrival_stop_id()),
        ),
        None => 1,
    }
}

/// Sum of the potentials of the routes.
pub open spec fn total_potential(timetable: Timetable, routes: Seq<RouteView>) -> int
    decreases routes.len(),
{
    if routes.len() == 0 {
        0
    } else {
        potential(timetable, routes[0]) + total_potential(timetable, routes.drop_first())
    }
}

pub proof fn lemma_remaining_weight(timetable: Timetable, journey: Journey, from: int, to: int)
    requires
        0 <= from <= to,
    ensures
        0 <= remaining_weight(timetable, journey, to) <= remaining_weight(timetable, journey, from),
    decreases journey.route@.len() - from,
{
    if from < journey.route@.len() {
        if from < to {
            lemma_remaining_weight(timetable, journey, from + 1, to);
        } else {
            lemma_remaining_weight(timetable, journey, from + 1, from + 1);
        }
    }
}

pub proof fn lemma_total_potential(timetable: Timetable, routes: Seq<RouteView>)
    ensures
        total_potential(timetable, routes) >= 0,
    decreases routes.len(),
{
    if routes.len() > 0 {
        lemma_total_potential(timetable, routes.drop_first());
        match routes[0].last_section().journey_id {
            Some(id) => {
                lemma_first_position(
                    timetable.journey(id).stop_ids(),
                    routes[0].arrival_stop_id(),
                    1,
                );
                lemma_remaining_weight(
                    timetable,
                    timetable.journey(id),
                    timetable.journey(id).arrival_position(routes[0].arrival_stop_id()),
                    timetable.journey(id).arrival_position(routes[0].arrival_stop_id()),
                );
            },
            None => {},
        }
    }
}

/// A route put among others adds its potential to theirs.
pub proof fn lemma_total_potential_insert(
    timetable: Timetable,
    routes: Seq<RouteView>,
    at: int,
    route: RouteView,
)
    requires
        0 <= at <= routes.len(),
    ensures
        total_potential(timetable, routes.insert(at, route)) == total_potential(timetable, routes)
            + potential(timetable, route),
    decreases routes.len(),
{
    let inserted = routes.insert(at, route);
    if at == 0 {
        assert(inserted.drop_first() == routes);
    } else {
        assert(inserted[0] == routes[0]);
        assert(inserted.drop_first() == routes.drop_first().insert(at - 1, route));
        lemma_total_potential_insert(timetable, routes.drop_first(), at - 1, route);
    }
}

/// A route put in its place among others adds its potential to theirs.
pub proof fn lemma_total_potential_sorted_insert(
    timetable: Timetable,
    routes: Seq<RouteView>,
    route: RouteView,
)
    ensures
        total_potential(timetable, sorted_insert_spec(routes, route)) == total_potential(
            timetable,
            routes,
        ) + potential(timetable, route),
{
    lemma_insert_position_in_range(routes, route.arrival_at());
    lemma_total_potential_insert(
        timetable,
        routes,
        insert_position(routes, route.arrival_at()),
        route,
    );
}

/// What a route that arrived by a ride has to spare for the route that carries
/// it on: its potential without the weight of the call at which it is.
pub open spec fn spare(timetable: Timetable, route: RouteView) -> int {
    match route.last_section().journey_id {
        Some(id) => potential(timetable, route) - weight(
            timetable,
            timetable.journey(id),
            timetable.journey(id).arrival_position(route.arrival_stop_id()),
        ),
        None => 0,
    }
}

/// A route carried on along its journey fits the timetable and has no more
/// potential than the route had to spare.
pub proof fn lemma_carried_on(timetable: Timetable, route: RouteView)
    requires
        timetable.wf(),
        route.fits(timetable),
        route.last_section().journey_id.is_some(),
    ensures
        spare(timetable, route) >= 0,
        extend_spec(
            timetable,
            route,
            route.last_section().journey_id.unwrap(),
            route.arrival_at().date,
            false,
        ) matches Some(extended) ==> extended.fits(timetable) && potential(timetable, extended)
            <= spare(timetable, route),
{
    let last = route.sections[route.sections.len() - 1];
    assert(last.fits(timetable));
    let id = last.journey_id.unwrap();
    let journey = timetable.journey(id);
    let stop_id = route.arrival_stop_id();
    let reached = journey.arrival_position(stop_id);
    lemma_first_position(journey.stop_ids(), stop_id, 1);
    lemma_remaining_weight(timetable, journey, reached + 1, reached + 1);
    let date = route.arrival_at().date;
    match extend_spec(timetable, route, id, date, false) {
        Some(extended) => {
            lemma_extend_fits(timetable, route, id, date, false);
            lemma_departure_position_of_arrival(journey, stop_id);
            let from = journey.departure_position(stop_id);
            let to = next_halt(timetable, journey, from + 1);
            lemma_next_halt(timetable, journey, from + 1);
            lemma_arrival_position_of_call(journey, to);
            assert(extended.arrival_stop_id() == journey.route@[to].stop_id);
            assert(extended.last_section().journey_id == Some(id));
            lemma_remaining_weight(timetable, journey, reached + 1, to);
        },
        None => {},
    }
}

/// A route carried on by a walk fits the timetable and has the potential 1.
pub proof fn lemma_walk_by(timetable: Timetable, route: RouteView, connection: StopConnection)
    requires
        timetable.wf(),
        route.fits(timetable),
        route.last_section().journey_id.is_some(),
        connection.stop_id_1 == route.arrival_stop_id(),
        timetable.stop_connections@.contains(connection),
        !route.visited_stops.contains(connection.stop_id_2),
    ensures
        walk_by(route, connection).fits(timetable),
        potential(timetable, walk_by(route, connection)) == 1,
{
    let new = walk_by(route, connection);
    let last = route.sections.len() - 1;
    assert(route.sections[last].fits(timetable));
    let section = new.sections[last + 1];
    let arrival = route.arrival_at().timestamp() + 60 * connection.duration;
    assert(section.arrival_at == DateTime::of_timestamp(arrival));
    assert(section.arrival_at.wf());
    assert(section.arrival_at.timestamp() == arrival);
    assert(section.fits(timetable));
    assert forall|i: int| 0 <= i < new.sections.len() implies (#[trigger] new.sections[i]).fits(
        timetable,
    ) by {
        if i <= last {
            assert(new.sections[i] == route.sections[i]);
            assert(route.sections[i].fits(timetable));
        }
    }
    assert(new.is_continuous()) by {
        assert forall|i: int| 0 <= i < new.sections.len() - 1 implies #[trigger] new.is_joined_at(
            i,
        ) by {
            if i < last {
                assert(route.is_joined_at(i));
            }
        }
    }
    assert(new.alternates()) by {
        assert forall|i: int| 0 <= i < new.sections.len() - 1 implies #[trigger] new.rides_at(
            i,
        ) by {
            if i < last {
                assert(route.rides_at(i));
            }
        }
    }
    assert(new.has_visited_its_stops(timetable)) by {
        assert forall|i: int, id: i32|
            0 <= i < new.sections.len() && #[trigger] new.passes(
                timetable,
                i,
                id,
            ) implies new.visited_stops.contains(id) by {
            if i <= last {
                assert(new.sections[i] == route.sections[i]);
                assert(route.passes(timetable, i, id));
            }
        }
    }
    assert(new.never_returns(timetable)) by {
        assert forall|j: int| 0 <= j < new.sections.len() implies #[trigger] new.is_new_at(
            timetable,
            j,
        ) by {
            if j <= last {
                assert(route.is_new_at(timetable, j));
                lemma_is_new_at_prefix(timetable, route, new, j);
            } else {
                assert forall|id: i32| #[trigger]
                    new.passes(timetable, j, id) implies !new.was_at_before(timetable, j, id) by {
                    assert(id == connection.stop_id_2);
                    if new.was_at_before(timetable, j, id) {
                        lemma_was_at_before_prefix(
                            timetable,
                            route,
                            new,
                            route.sections.len() as int,
                            id,
                        );
                        lemma_was_at_before_is_visited(
                            timetable,
                            route,
                            route.sections.len() as int,
                            id,
                        );
                    }
                }
            }
        }
    }
    assert(new.is_shaped(timetable));
    assert forall|i: int| 0 <= i < new.sections.len() - 1 implies #[trigger] new.changes_in_time_at(
        timetable,
        i,
    ) && new.boards_in_time_at(timetable, i) by {
        assert(new.sections[i] == route.sections[i]);
        if i < last {
            assert(new.sections[i + 1] == route.sections[i + 1]);
            assert(route.changes_in_time_at(timetable, i));
        }
    }
    if timetable.is_chronological() {
        let place = choose|place: int|
            0 <= place < timetable.stop_connections@.len() && timetable.stop_connections@[place]
                == connection;
        assert(timetable.stop_connections@[place].duration >= 0);
        assert forall|i: int| 0 <= i < new.sections.len() implies #[trigger] new.advances_at(
            timetable,
            i,
        ) by {
            if i <= last {
                assert(new.sections[i] == route.sections[i]);
                if i >= 1 {
                    assert(new.sections[i - 1] == route.sections[i - 1]);
                }
                assert(route.advances_at(timetable, i));
            } else {
                assert(new.sections[i - 1] == route.sections[last]);
            }
        }
    }
}

/// The routes that [`nearby_by`] returns fit the timetable where the routes
/// that it was given did, and each walk adds 1 to their potential at most.
pub proof fn lemma_nearby_by(
    timetable: Timetable,
    route: RouteView,
    connections: Seq<StopConnection>,
    frontier: Seq<RouteView>,
)
    requires
        timetable.wf(),
        route.fits(timetable),
        route.last_section().journey_id.is_some(),
        all_routes_fit(timetable, frontier),
        forall|i: int|
            0 <= i < connections.len() ==> (#[trigger] connections[i]).stop_id_1
                == route.arrival_stop_id() && timetable.stop_connections@.contains(connections[i]),
    ensures
        all_routes_fit(timetable, nearby_by(timetable, route, connections, frontier)),
        total_potential(timetable, nearby_by(timetable, route, connections, frontier))
            <= total_potential(timetable, frontier) + connections.len(),
    decreases connections.len(),
{
    if connections.len() > 0 {
        let before = nearby_by(timetable, route, connections.drop_last(), frontier);
        assert forall|i: int| 0 <= i < connections.drop_last().len() implies (
        #[trigger] connections.drop_last()[i]).stop_id_1 == route.arrival_stop_id()
            && timetable.stop_connections@.contains(connections.drop_last()[i]) by {
            assert(connections.drop_last()[i] == connections[i]);
        }
        lemma_nearby_by(timetable, route, connections.drop_last(), frontier);
        if is_new_walk(timetable, route, connections.last()) {
            let walk = walk_by(route, connections.last());
            lemma_walk_by(timetable, route, connections.last());
            lemma_total_potential_sorted_insert(timetable, before, walk);
            lemma_sorted_insert_fits(timetable, before, walk);
        }
    }
}

/// Routes that fit the timetable still do with one more that fits it put in
/// its place among them.
pub proof fn lemma_sorted_insert_fits(timetable: Timetable, routes: Seq<RouteView>, route: RouteView)
    requires
        all_routes_fit(timetable, routes),
        route.fits(timetable),
    ensures
        all_routes_fit(timetable, sorted_insert_spec(routes, route)),
{
    lemma_sorted_insert_keeps(routes, route);
    let result = sorted_insert_spec(routes, route);
    assert forall|i: int| 0 <= i < result.len() implies (#[trigger] result[i]).fits(timetable) by {
        if result[i] != route {
            assert(routes.contains(result[i]));
            let k = choose|k: int| 0 <= k < routes.len() && routes[k] == result[i];
            assert(routes[k].fits(timetable));
        }
    }
}

/// Routes that fit the timetable arrive at a time of day.
pub proof fn lemma_fit_routes_are_wf(timetable: Timetable, routes: Seq<RouteView>)
    requires
        all_routes_fit(timetable, routes),
    ensures
        all_wf(routes),
{
    assert forall|i: int| 0 <= i < routes.len() implies (#[trigger] routes[i]).wf() by {
        assert(routes[i].fits(timetable));
    }
}

/// Looks at `route` for the search that `args` describes, and returns whether
/// the search goes on from it.
pub fn can_continue_exploration(
    timetable: &Timetable,
    route: &Route,
    solutions: &mut FxHashMap<i32, Route>,
    args: &RoutingAlgorithmArgs,
) -> (go_on: bool)
    requires
        timetable.wf(),
        args.wf(),
        route@.fits(*timetable),
        solutions_fit(*timetable, solution_views(old(solutions)@)),
        solutions_meet(*args, solution_views(old(solutions)@)),
    ensures
        (solution_views(final(solutions)@), go_on) == can_continue_spec(
            *timetable,
            *args,
            route@,
            solution_views(old(solutions)@),
        ),
        solutions_fit(*timetable, solution_views(final(solutions)@)),
        solutions_meet(*args, solution_views(final(solutions)@)),
        go_on ==> route@.is_short_of(args.target()),
        forall|query: Query| #![trigger all_solve(*timetable, solution_views(final(solutions)@), query)]
            query.arrival_stop_id == args.target() && all_solve(
                *timetable,
                solution_views(old(solutions)@),
                query,
            ) && route@.answers(*timetable, query) ==> all_solve(
                *timetable,
                solution_views(final(solutions)@),
                query,
            ),
        forall|count: int| #![trigger solutions_ride_at_most(solution_views(final(solutions)@), count)]
            solutions_ride_at_most(solution_views(old(solutions)@), count) && route@.rides().len()
                <= count ==> solutions_ride_at_most(solution_views(final(solutions)@), count),
{
    match args.mode() {
        RoutingAlgorithmMode::SolveFromDepartureStopToArrivalStop => {
            can_continue_exploration_one_to_one(timetable, route, solutions, args.arrival_stop_id())
        },
        RoutingAlgorithmMode::SolveFromDepartureStopToReachableArrivalStops => {
            can_continue_exploration_one_to_many(timetable, route, solutions, args.time_limit())
        },
    }
}

/// Carries `route` on along the journey of its last ride to the next stop at
/// which a ride can end, if there is one, and puts the new route among the
/// routes to look at.
pub fn explore_last_route_section_more_if_possible(
    timetable: &Timetable,
    route: &Route,
    routes: &mut Vec<Route>,
)
    requires
        timetable.wf(),
        route@.fits(*timetable),
        all_routes_fit(*timetable, views(old(routes)@)),
    ensures
        views(final(routes)@) == explore_more_spec(*timetable, route@, views(old(routes)@)),
        all_routes_fit(*timetable, views(final(routes)@)),
        total_potential(*timetable, views(final(routes)@)) <= total_potential(
            *timetable,
            views(old(routes)@),
        ) + spare(*timetable, route@),
        forall|query: Query| #![trigger all_answer(*timetable, views(final(routes)@), query)]
            all_answer(*timetable, views(old(routes)@), query) && route@.answers(
                *timetable,
                query,
            ) && route@.is_short_of(query.arrival_stop_id) ==> all_answer(
                *timetable,
                views(final(routes)@),
                query,
            ),
        forall|count: int| #![trigger all_ride_at_most(views(final(routes)@), count)]
            all_ride_at_most(views(old(routes)@), count) && route@.rides().len() <= count
                ==> all_ride_at_most(views(final(routes)@), count),
{
    let journey_id: i32 = match route.last_section().journey_id() {
        Some(journey_id) => journey_id,
        None => { return ; },
    };
    proof {
        lemma_arrival_is_near(*timetable, route@);
        lemma_carried_on(*timetable, route@);
        lemma_fit_routes_are_wf(*timetable, views(routes@));
    }
    match route.extend(timetable, journey_id, route.arrival_at().date(), false) {
        Some(extended) => {
            proof {
                lemma_total_potential_sorted_insert(*timetable, views(routes@), extended@);
                lemma_sorted_insert_fits(*timetable, views(routes@), extended@);
                lemma_extend_answers(
                    *timetable,
                    route@,
                    journey_id,
                    route@.arrival_at().date,
                    false,
                );
                lemma_extend_rides(*timetable, route@, journey_id, route@.arrival_at().date, false);
                assert forall|count: int| #![trigger all_ride_at_most(sorted_insert_spec(views(routes@), extended@), count)]
                    all_ride_at_most(views(routes@), count) && route@.rides().len()
                        <= count implies all_ride_at_most(
                    sorted_insert_spec(views(routes@), extended@),
                    count,
                ) by {
                    lemma_sorted_insert_rides(views(routes@), extended@, count);
                }
                assert forall|query: Query| #![trigger all_answer(*timetable, sorted_insert_spec(views(routes@), extended@), query)]
                    all_answer(*timetable, views(routes@), query) && route@.answers(
                        *timetable,
                        query,
                    ) && route@.is_short_of(query.arrival_stop_id) implies all_answer(
                    *timetable,
                    sorted_insert_spec(views(routes@), extended@),
                    query,
                ) by {
                    lemma_successor_answers(*timetable, route@, extended@, query);
                    lemma_sorted_insert_answers(*timetable, views(routes@), extended@, query);
                }
            }
            sorted_insert(routes, extended);
        },
        None => {},
    }
}

/// Notes that `route` has arrived, and returns whether the search boards
/// journeys from there: passengers can change at the stop, and no route has
/// arrived there as early.
pub fn can_explore_connections(
    timetable: &Timetable,
    route: &Route,
    earliest_arrival_by_stop_id: &mut FxHashMap<i32, DateTime>,
) -> (boards: bool)
    requires
        timetable.wf(),
        route@.wf(),
        arrivals_wf(old(earliest_arrival_by_stop_id)@),
    ensures
        (final(earliest_arrival_by_stop_id)@, boards) == can_explore_connections_spec(
            *timetable,
            route@,
            old(earliest_arrival_by_stop_id)@,
        ),
        arrivals_wf(final(earliest_arrival_by_stop_id)@),
{
    let stop_id: i32 = route.arrival_stop_id();
    let exchange_point: bool = match timetable.find_stop(stop_id) {
        Some(stop) => stop.exchange_point,
        None => false,
    };
    if !exchange_point {
        return false;
    }
    let arrival_at = route.arrival_at();
    let earlier: bool = match map_get(earliest_arrival_by_stop_id, stop_id) {
        Some(earliest_arrival) => arrival_at.is_before(*earliest_arrival),
        None => true,
    };
    if earlier {
        map_insert(earliest_arrival_by_stop_id, stop_id, arrival_at);
        true
    } else {
        false
    }
}

/// Carries `route` on by each walk that leaves the stop at which it has
/// arrived and leads to a stop of the timetable at which it has not been, and
/// puts the new routes among the routes to look at. A route that has arrived
/// on foot is not carried on.
pub fn explore_nearby_stops(timetable: &Timetable, route: &Route, routes: &mut Vec<Route>)
    requires
        timetable.wf(),
        route@.fits(*timetable),
        all_routes_fit(*timetable, views(old(routes)@)),
    ensures
        views(final(routes)@) == explore_nearby_spec(*timetable, route@, views(old(routes)@)),
        all_routes_fit(*timetable, views(final(routes)@)),
        total_potential(*timetable, views(final(routes)@)) <= total_potential(
            *timetable,
            views(old(routes)@),
        ) + if route@.last_section().journey_id.is_some() {
            timetable.connections_at(route@.arrival_stop_id()).len() as int
        } else {
            0
        },
        forall|query: Query| #![trigger all_answer(*timetable, views(final(routes)@), query)]
            all_answer(*timetable, views(old(routes)@), query) && route@.answers(
                *timetable,
                query,
            ) && route@.is_short_of(query.arrival_stop_id) ==> all_answer(
                *timetable,
                views(final(routes)@),
                query,
            ),
        forall|count: int| #![trigger all_ride_at_most(views(final(routes)@), count)]
            all_ride_at_most(views(old(routes)@), count) && route@.rides().len() <= count
                ==> all_ride_at_most(views(final(routes)@), count),
{
    if route.last_section().journey_id().is_none() {
        return ;
    }
    let ghost frontier = views(routes@);
    let stop_id: i32 = route.arrival_stop_id();
    let connections = match get_stop_connections(timetable, stop_id) {
        Some(connections) => connections,
        None => {
            assert(stop_connections_spec(*timetable, stop_id) =~= Seq::empty());
            return ;
        },
    };
    proof {
        lemma_arrival_is_near(*timetable, route@);
    }
    let arrival_at = route.arrival_at();
    let mut at: usize = 0;
    while at < connections.len()
        invariant
            at <= connections@.len(),
            timetable.wf(),
            route@.fits(*timetable),
            route@.last_section().journey_id.is_some(),
            arrival_at == route@.arrival_at(),
            stop_id == route@.arrival_stop_id(),
            timetable.is_near(arrival_at.date),
            connections@ == stop_connections_spec(*timetable, stop_id),
            forall|i: int|
                0 <= i < connections@.len() ==> (#[trigger] connections@[i]).stop_id_1 == stop_id
                    && timetable.stop_connections@.contains(connections@[i]),
            views(routes@) == nearby_by(*timetable, route@, connections@.take(at as int), frontier),
            all_routes_fit(*timetable, frontier),
            all_routes_fit(*timetable, views(routes@)),
            forall|query: Query| #![trigger all_answer(*timetable, views(routes@), query)]
                all_answer(*timetable, frontier, query) && route@.answers(*timetable, query)
                    && route@.is_short_of(query.arrival_stop_id) ==> all_answer(
                    *timetable,
                    views(routes@),
                    query,
                ),
            forall|count: int| #![trigger all_ride_at_most(views(routes@), count)]
                all_ride_at_most(frontier, count) && route@.rides().len() <= count
                    ==> all_ride_at_most(views(routes@), count),
        decreases connections@.len() - at,
    {
        let connection = connections[at];
        proof {
            assert(connections@.take(at + 1).drop_last() == connections@.take(at as int));
            assert(connections@.take(at + 1).last() == connection);
        }
        let known: bool = timetable.find_stop(connection.stop_id_2).is_some();
        if known && !set_contains(route.visited_stops(), connection.stop_id_2) {
            let mut reached: FxHashSet<i32> = FxHashSet::default();
            set_insert(&mut reached, connection.stop_id_2);
            let new_route = clone_update_route(
                route,
                RouteSection::new(
                    None,
                    connection.stop_id_1,
                    connection.stop_id_2,
                    add_minutes_to_date_time(arrival_at, connection.duration as i64),
                    Some(connection.duration),
                ),
                false,
                &reached,
            );
            proof {
                assert(reached@ =~= Set::empty().insert(connection.stop_id_2));
                assert(new_route@ == walk_by(route@, connection));
                lemma_walk_by(*timetable, route@, connection);
                lemma_sorted_insert_fits(*timetable, views(routes@), new_route@);
                lemma_fit_routes_are_wf(*timetable, views(routes@));
                lemma_walk_answers(*timetable, route@, connection);
                lemma_walk_rides(route@, connection);
                assert forall|count: int| #![trigger all_ride_at_most(sorted_insert_spec(views(routes@), new_route@), count)]
                    all_ride_at_most(frontier, count) && route@.rides().len()
                        <= count implies all_ride_at_most(
                    sorted_insert_spec(views(routes@), new_route@),
                    count,
                ) by {
                    assert(all_ride_at_most(views(routes@), count));
                    lemma_sorted_insert_rides(views(routes@), new_route@, count);
                }
                assert forall|query: Query| #![trigger all_answer(*timetable, sorted_insert_spec(views(routes@), new_route@), query)]
                    all_answer(*timetable, frontier, query) && route@.answers(*timetable, query)
                        && route@.is_short_of(query.arrival_stop_id) implies all_answer(
                    *timetable,
                    sorted_insert_spec(views(routes@), new_route@),
                    query,
                ) by {
                    assert(all_answer(*timetable, views(routes@), query));
                    lemma_successor_answers(*timetable, route@, new_route@, query);
                    lemma_sorted_insert_answers(*timetable, views(routes@), new_route@, query);
                }
            }
            sorted_insert(routes, new_route);
        }
        at += 1;
    }
    proof {
        assert(connections@.take(at as int) == connections@);
        lemma_nearby_by(*timetable, route@, connections@, frontier);
        assert(connections@.len() == timetable.connections_at(stop_id).len());
    }
}

/// Extends `route` by every journey that it can board where it has arrived,
/// but for the journeys to ignore, and adds the new routes to the routes
/// found.
pub fn explore_connections(
    timetable: &Timetable,
    route: &Route,
    journeys_to_ignore: &FxHashSet<i32>,
    new_routes: &mut Vec<Route>,
)
    requires
        timetable.wf(),
        route@.fits(*timetable),
        all_routes_fit(*timetable, views(old(new_routes)@)),
    ensures
        views(final(new_routes)@) == views(old(new_routes)@) + get_connections_spec(
            *timetable,
            route@,
            journeys_to_ignore@,
        ),
        all_routes_fit(*timetable, views(final(new_routes)@)),
        forall|query: Query| #![trigger all_answer(*timetable, views(final(new_routes)@), query)]
            all_answer(*timetable, views(old(new_routes)@), query) && route@.answers(
                *timetable,
                query,
            ) && route@.is_short_of(query.arrival_stop_id) ==> all_answer(
                *timetable,
                views(final(new_routes)@),
                query,
            ),
        forall|count: int| #![trigger all_ride_at_most(views(final(new_routes)@), count)]
            all_ride_at_most(views(old(new_routes)@), count) && route@.rides().len() < count
                ==> all_ride_at_most(views(final(new_routes)@), count),
{
    let mut connections = get_connections(timetable, route, journeys_to_ignore);
    let ghost before = new_routes@;
    let ghost added = connections@;
    new_routes.append(&mut connections);
    proof {
        assert(views(new_routes@) =~= views(before) + views(added));
        assert forall|i: int| 0 <= i < views(new_routes@).len() implies (#[trigger] views(
            new_routes@,
        )[i]).fits(*timetable) by {
            if i < before.len() {
                assert(views(new_routes@)[i] == views(before)[i]);
            } else {
                assert(views(new_routes@)[i] == views(added)[i - before.len()]);
            }
        }
        assert forall|count: int| #![trigger all_ride_at_most(views(new_routes@), count)]
            all_ride_at_most(views(before), count) && route@.rides().len()
                < count implies all_ride_at_most(views(new_routes@), count) by {
            assert forall|i: int| 0 <= i < views(new_routes@).len() implies (#[trigger] views(
                new_routes@,
            )[i]).rides().len() <= count by {
                if i < before.len() {
                    assert(views(new_routes@)[i] == views(before)[i]);
                } else {
                    assert(views(new_routes@)[i] == views(added)[i - before.len()]);
                    assert(views(added)[i - before.len()].rides().len() <= route@.rides().len()
                        + 1);
                }
            }
        }
        assert forall|query: Query| #![trigger all_answer(*timetable, views(new_routes@), query)]
            all_answer(*timetable, views(before), query) && route@.answers(*timetable, query)
                && route@.is_short_of(query.arrival_stop_id) implies all_answer(
            *timetable,
            views(new_routes@),
            query,
        ) by {
            assert forall|i: int| 0 <= i < views(new_routes@).len() implies (#[trigger] views(
                new_routes@,
            )[i]).answers(*timetable, query) by {
                if i < before.len() {
                    assert(views(new_routes@)[i] == views(before)[i]);
                } else {
                    assert(views(new_routes@)[i] == views(added)[i - before.len()]);
                    assert(views(added)[i - before.len()].succeeds(*timetable, route@));
                    lemma_successor_answers(
                        *timetable,
                        route@,
                        views(added)[i - before.len()],
                        query,
                    );
                }
            }
        }
    }
}

/// Notes the journeys of the last rides of the routes among the journeys to
/// ignore.
pub(crate) fn ignore_last_journeys(routes: &Vec<Route>, journeys_to_ignore: &mut FxHashSet<i32>)
    requires
        all_wf(views(routes@)),
    ensures
        final(journeys_to_ignore)@ == old(journeys_to_ignore)@.union(last_journeys(views(routes@))),
{
    let ghost before = journeys_to_ignore@;
    let mut at: usize = 0;
    assert(journeys_to_ignore@ =~= before.union(last_journeys(views(routes@).take(0))));
    while at < routes.len()
        invariant
            at <= routes@.len(),
            all_wf(views(routes@)),
            journeys_to_ignore@ == before.union(last_journeys(views(routes@).take(at as int))),
        decreases routes@.len() - at,
    {
        let ghost noted = journeys_to_ignore@;
        assert(views(routes@)[at as int].wf());
        match routes[at].last_section().journey_id() {
            Some(journey_id) => {
                set_insert(journeys_to_ignore, journey_id);
            },
            None => {},
        }
        proof {
            let shorter = views(routes@).take(at as int);
            let longer = views(routes@).take(at + 1);
            assert forall|id: i32|
                journeys_to_ignore@.contains(id) == before.union(last_journeys(longer)).contains(
                    id,
                ) by {
                if last_journeys(longer).contains(id) {
                    let i = choose|i: int|
                        0 <= i < longer.len() && (#[trigger] longer[i]).last_section().journey_id
                            == Some(id);
                    if i < at {
                        assert(shorter[i] == longer[i]);
                        assert(last_journeys(shorter).contains(id));
                    }
                }
                if last_journeys(shorter).contains(id) {
                    let i = choose|i: int|
                        0 <= i < shorter.len() && (
                        #[trigger] shorter[i]).last_section().journey_id == Some(id);
                    assert(longer[i] == shorter[i]);
                }
                if routes@[at as int]@.last_section().journey_id == Some(id) {
                    assert(longer[at as int] == routes@[at as int]@);
                }
            }
            assert(journeys_to_ignore@ =~= before.union(last_journeys(longer)));
        }
        at += 1;
    }
    assert(views(routes@).take(at as int) == views(routes@));
}

/// One round of the search: looks at each of `routes` in turn, and at every
/// route that comes of carrying one of them on, and returns the routes found
/// for the next round, in the order of their arrival. The journeys of the
/// last rides of those routes are noted among the journeys to ignore.
/// The round forgets no arrival and no route that was known: each stop is
/// left with the arrival that it had or an earlier one, and with the route
/// that it had or a better one. No route from which the round goes on arrives
/// at a stop at which passengers can change before the arrival that the round
/// leaves for that stop.
pub fn explore_routes(
    timetable: &Timetable,
    routes: Vec<Route>,
    journeys_to_ignore: &mut FxHashSet<i32>,
    earliest_arrival_by_stop_id: &mut FxHashMap<i32, DateTime>,
    solutions: &mut FxHashMap<i32, Route>,
    args: &RoutingAlgorithmArgs,
) -> (new_routes: Vec<Route>)
    requires
        timetable.wf(),
        args.wf(),
        all_routes_fit(*timetable, views(routes@)),
        arrivals_wf(old(earliest_arrival_by_stop_id)@),
        solutions_fit(*timetable, solution_views(old(solutions)@)),
        solutions_meet(*args, solution_views(old(solutions)@)),
    ensures
        ({
            let outcome = explored(
                *timetable,
                *args,
                old(journeys_to_ignore)@,
                Exploration {
                    frontier: views(routes@),
                    found: Seq::empty(),
                    earliest_arrivals: old(earliest_arrival_by_stop_id)@,
                    solutions: solution_views(old(solutions)@),
                },
            );
            &&& is_explored(
                *timetable,
                *args,
                old(journeys_to_ignore)@,
                Exploration {
                    frontier: views(routes@),
                    found: Seq::empty(),
                    earliest_arrivals: old(earliest_arrival_by_stop_id)@,
                    solutions: solution_views(old(solutions)@),
                },
                outcome,
            )
            &&& views(new_routes@) == sort_spec(outcome.found)
            &&& final(earliest_arrival_by_stop_id)@ == outcome.earliest_arrivals
            &&& records_the_arrivals(
                *timetable,
                *args,
                old(journeys_to_ignore)@,
                Exploration {
                    frontier: views(routes@),
                    found: Seq::empty(),
                    earliest_arrivals: old(earliest_arrival_by_stop_id)@,
                    solutions: solution_views(old(solutions)@),
                },
                final(earliest_arrival_by_stop_id)@,
            )
            &&& solution_views(final(solutions)@) == outcome.solutions
            &&& final(journeys_to_ignore)@ == old(journeys_to_ignore)@.union(
                last_journeys(outcome.found),
            )
        }),
        all_routes_fit(*timetable, views(new_routes@)),
        arrivals_wf(final(earliest_arrival_by_stop_id)@),
        only_lowers(old(earliest_arrival_by_stop_id)@, final(earliest_arrival_by_stop_id)@),
        solutions_fit(*timetable, solution_views(final(solutions)@)),
        solutions_meet(*args, solution_views(final(solutions)@)),
        only_improves(
            *timetable,
            solution_views(old(solutions)@),
            solution_views(final(solutions)@),
        ),
        forall|query: Query| #![trigger all_answer(*timetable, views(new_routes@), query)]
            query.arrival_stop_id == args.target() && all_answer(
                *timetable,
                views(routes@),
                query,
            ) && all_solve(*timetable, solution_views(old(solutions)@), query) ==> all_answer(
                *timetable,
                views(new_routes@),
                query,
            ) && all_solve(*timetable, solution_views(final(solutions)@), query),
        forall|count: int| #![trigger all_ride_at_most(views(new_routes@), count)]
            all_ride_at_most(views(routes@), count - 1) ==> all_ride_at_most(
                views(new_routes@),
                count,
            ),
        forall|count: int| #![trigger solutions_ride_at_most(solution_views(final(solutions)@), count)]
            all_ride_at_most(views(routes@), count) && solutions_ride_at_most(
                solution_views(old(solutions)@),
                count,
            ) ==> solutions_ride_at_most(solution_views(final(solutions)@), count),
{
    let ghost given = views(routes@);
    let ghost known = solution_views(solutions@);
    let mut routes = routes;
    let mut new_routes: Vec<Route> = Vec::new();
    let ghost ignored = journeys_to_ignore@;
    let ghost start = Exploration {
        frontier: views(routes@),
        found: Seq::empty(),
        earliest_arrivals: earliest_arrival_by_stop_id@,
        solutions: solution_views(solutions@),
    };
    let ghost mut steps: nat = 0;
    proof {
        assert(views(new_routes@) =~= Seq::empty());
        lemma_total_potential(*timetable, views(routes@));
    }
    while routes.len() > 0
        invariant
            timetable.wf(),
            args.wf(),
            journeys_to_ignore@ == ignored,
            all_routes_fit(*timetable, views(routes@)),
            all_routes_fit(*timetable, views(new_routes@)),
            arrivals_wf(earliest_arrival_by_stop_id@),
            solutions_fit(*timetable, solution_views(solutions@)),
            solutions_meet(*args, solution_views(solutions@)),
            forall|query: Query| #![trigger all_answer(*timetable, views(routes@), query)]
                query.arrival_stop_id == args.target() && all_answer(*timetable, given, query)
                    && all_solve(*timetable, known, query) ==> all_answer(
                    *timetable,
                    views(routes@),
                    query,
                ) && all_answer(*timetable, views(new_routes@), query) && all_solve(
                    *timetable,
                    solution_views(solutions@),
                    query,
                ),
            forall|count: int| #![trigger all_ride_at_most(views(routes@), count)]
                all_ride_at_most(given, count) ==> all_ride_at_most(views(routes@), count),
            forall|count: int| #![trigger all_ride_at_most(views(new_routes@), count)]
                all_ride_at_most(given, count - 1) ==> all_ride_at_most(views(new_routes@), count),
            forall|count: int| #![trigger solutions_ride_at_most(solution_views(solutions@), count)]
                all_ride_at_most(given, count) && solutions_ride_at_most(known, count)
                    ==> solutions_ride_at_most(solution_views(solutions@), count),
            total_potential(*timetable, views(routes@)) >= 0,
            explore_steps(*timetable, *args, ignored, start, steps) == (Exploration {
                frontier: views(routes@),
                found: views(new_routes@),
                earliest_arrivals: earliest_arrival_by_stop_id@,
                solutions: solution_views(solutions@),
            }),
        decreases total_potential(*timetable, views(routes@)),
    {
        let ghost before = views(routes@);
        let ghost state = explore_steps(*timetable, *args, ignored, start, steps);
        let route = routes.remove(0);
        proof {
            assert(route@ == before[0]);
            assert(views(routes@) =~= before.drop_first());
            assert(route@.fits(*timetable));
            assert forall|i: int| 0 <= i < views(routes@).len() implies (#[trigger] views(
                routes@,
            )[i]).fits(*timetable) by {
                assert(views(routes@)[i] == before[i + 1]);
            }
            lemma_potential_is_positive(*timetable, route@);
            lemma_total_potential(*timetable, views(routes@));
            steps = steps + 1;
            assert forall|query: Query| #![trigger all_answer(*timetable, views(routes@), query)]
                all_answer(*timetable, before, query) implies all_answer(
                *timetable,
                views(routes@),
                query,
            ) && route@.answers(*timetable, query) by {
                assert(before[0].answers(*timetable, query));
                assert forall|i: int| 0 <= i < views(routes@).len() implies (#[trigger] views(
                    routes@,
                )[i]).answers(*timetable, query) by {
                    assert(views(routes@)[i] == before[i + 1]);
                }
            }
        }
        proof {
            assert forall|count: int| all_ride_at_most(before, count) implies #[trigger] all_ride_at_most(
                views(routes@),
                count,
            ) && route@.rides().len() <= count by {
                assert(before[0].rides().len() <= count);
                assert forall|i: int| 0 <= i < views(routes@).len() implies (#[trigger] views(
                    routes@,
                )[i]).rides().len() <= count by {
                    assert(views(routes@)[i] == before[i + 1]);
                }
            }
        }
        let ghost rest = views(routes@);
        let ghost found = views(new_routes@);
        let ghost so_far = solution_views(solutions@);
        let go_on: bool = can_continue_exploration(timetable, &route, solutions, args);
        if go_on && route.last_section().departure_stop_id() != route.last_section().arrival_stop_id() {
            explore_last_route_section_more_if_possible(timetable, &route, &mut routes);
            if can_explore_connections(timetable, &route, earliest_arrival_by_stop_id) {
                explore_nearby_stops(timetable, &route, &mut routes);
                explore_connections(timetable, &route, journeys_to_ignore, &mut new_routes);
            }
        }
        proof {
            lemma_total_potential(*timetable, views(routes@));
            assert(explore_steps(*timetable, *args, ignored, start, steps) == explore_step(
                *timetable,
                *args,
                ignored,
                state,
            ));
            assert forall|count: int| all_ride_at_most(given, count) implies #[trigger] all_ride_at_most(
                views(routes@),
                count,
            ) by {
                assert(all_ride_at_most(before, count));
                assert(all_ride_at_most(rest, count));
            }
            assert forall|count: int| all_ride_at_most(given, count - 1) implies #[trigger] all_ride_at_most(
                views(new_routes@),
                count,
            ) by {
                assert(all_ride_at_most(before, count - 1));
                assert(all_ride_at_most(rest, count - 1));
                assert(all_ride_at_most(found, count));
            }
            assert forall|count: int|
                all_ride_at_most(given, count) && solutions_ride_at_most(
                    known,
                    count,
                ) implies #[trigger] solutions_ride_at_most(solution_views(solutions@), count) by {
                assert(all_ride_at_most(before, count));
                assert(all_ride_at_most(rest, count));
                assert(solutions_ride_at_most(so_far, count));
            }
            assert forall|query: Query| #![trigger all_answer(*timetable, views(routes@), query)]
                query.arrival_stop_id == args.target() && all_answer(*timetable, given, query)
                    && all_solve(*timetable, known, query) implies all_answer(
                *timetable,
                views(routes@),
                query,
            ) && all_answer(*timetable, views(new_routes@), query) && all_solve(
                *timetable,
                solution_views(solutions@),
                query,
            ) by {
                assert(all_answer(*timetable, before, query));
                assert(all_answer(*timetable, rest, query));
                assert(all_answer(*timetable, found, query));
                assert(all_solve(*timetable, so_far, query));
                assert(route@.answers(*timetable, query));
                assert(all_solve(*timetable, solution_views(solutions@), query));
            }
        }
    }
    proof {
        let outcome = explore_steps(*timetable, *args, ignored, start, steps);
        assert(is_explored(*timetable, *args, ignored, start, outcome));
        lemma_explored_is_unique(
            *timetable,
            *args,
            ignored,
            start,
            outcome,
            explored(*timetable, *args, ignored, start),
        );
        lemma_round_keeps_what_is_known(*timetable, *args, ignored, start, outcome);
        lemma_round_records_every_arrival(*timetable, *args, ignored, start, outcome);
        lemma_fit_routes_are_wf(*timetable, views(new_routes@));
    }
    ignore_last_journeys(&new_routes, journeys_to_ignore);
    let ghost found = views(new_routes@);
    sort_routes(&mut new_routes);
    proof {
        lemma_sort_fits(*timetable, found);
        assert forall|count: int| all_ride_at_most(given, count - 1) implies #[trigger] all_ride_at_most(
            views(new_routes@),
            count,
        ) by {
            assert(all_ride_at_most(found, count));
            lemma_sort_rides(found, count);
        }
        assert forall|count: int|
            all_ride_at_most(given, count) && solutions_ride_at_most(
                known,
                count,
            ) implies #[trigger] solutions_ride_at_most(solution_views(solutions@), count) by {
            assert(all_ride_at_most(views(routes@), count));
        }
        assert forall|query: Query| #![trigger all_answer(*timetable, views(new_routes@), query)]
            query.arrival_stop_id == args.target() && all_answer(*timetable, given, query)
                && all_solve(*timetable, known, query) implies all_answer(
            *timetable,
            views(new_routes@),
            query,
        ) && all_solve(*timetable, solution_views(solutions@), query) by {
            assert(all_answer(*timetable, views(routes@), query));
            assert(all_answer(*timetable, found, query));
            lemma_sort_answers(*timetable, found, query);
        }
    }
    new_routes
}

/// A route that fits the timetable has a potential of 1 at least, and a route
/// that arrived by a ride has the weight of a call at least.
pub proof fn lemma_potential_is_positive(timetable: Timetable, route: RouteView)
    requires
        timetable.wf(),
        route.fits(timetable),
    ensures
        potential(timetable, route) >= 1,
        route.last_section().journey_id.is_some() ==> potential(timetable, route) == spare(
            timetable,
            route,
        ) + 2 + timetable.connections_at(route.arrival_stop_id()).len(),
        spare(timetable, route) >= 0,
{
    let last = route.sections[route.sections.len() - 1];
    assert(last.fits(timetable));
    match last.journey_id {
        Some(id) => {
            let journey = timetable.journey(id);
            let reached = journey.arrival_position(route.arrival_stop_id());
            lemma_first_position(journey.stop_ids(), route.arrival_stop_id(), 1);
            lemma_remaining_weight(timetable, journey, reached + 1, reached + 1);
            assert(journey.route@[reached].stop_id == route.arrival_stop_id());
        },
        None => {},
    }
}

/// Routes that fit the timetable still do in the order of their arrival.
pub proof fn lemma_sort_fits(timetable: Timetable, routes: Seq<RouteView>)
    requires
        all_routes_fit(timetable, routes),
    ensures
        all_routes_fit(timetable, sort_spec(routes)),
    decreases routes.len(),
{
    if routes.len() > 0 {
        assert forall|i: int| 0 <= i < routes.drop_last().len() implies (
        #[trigger] routes.drop_last()[i]).fits(timetable) by {
            assert(routes.drop_last()[i] == routes[i]);
        }
        lemma_sort_fits(timetable, routes.drop_last());
        assert(routes.last().fits(timetable));
        lemma_sorted_insert_fits(timetable, sort_spec(routes.drop_last()), routes.last());
    }
}

} // verus!
