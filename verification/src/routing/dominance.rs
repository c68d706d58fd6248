//! What a round of the search does to the arrivals and the routes that it
//! knows: it forgets none of them, replaces an arrival by an earlier one and a
//! route by a better one only, and boards journeys and follows walks at a stop
//! only from the route that is there first.
use crate::routing::exploration::{
    can_continue_spec, can_explore_connections_spec, explore_more_spec, explore_step,
    explore_steps, is_explored, lemma_explore_steps_rest, Exploration,
};
use crate::routing::guarantees::lemma_is_better_is_transitive;
use crate::routing::models::{RouteView, RoutingAlgorithmArgs, RoutingAlgorithmMode};
use crate::routing::route_impl::is_exchange_point;
use crate::routing::solutions::{
    evaluate_calls_spec, evaluate_candidate_spec, is_better, update_arrival_stop_spec,
};
use crate::timetable::{JourneyRouteEntry, Timetable};
use crate::utils::DateTime;
use vstd::prelude::*;

verus! {

/// Every stop with an arrival in `before` has one in `after`, and none that
/// is later.
pub open spec fn only_lowers(before: Map<i32, DateTime>, after: Map<i32, DateTime>) -> bool {
    forall|stop_id: i32| #[trigger]
        before.contains_key(stop_id) ==> after.contains_key(stop_id) && after[stop_id].timestamp()
            <= before[stop_id].timestamp()
}

/// Every stop with a route in `before` has one in `after`: the same route,
/// or a better one.
pub open spec fn only_improves(
    timetable: Timetable,
    before: Map<i32, RouteView>,
    after: Map<i32, RouteView>,
) -> bool {
    forall|stop_id: i32| #[trigger]
        before.contains_key(stop_id) ==> after.contains_key(stop_id) && (after[stop_id]
            == before[stop_id] || is_better(timetable, after[stop_id], before[stop_id]))
}

/// A better route arrives no later.
pub proof fn lemma_better_is_no_later(
    timetable: Timetable,
    before: Map<i32, RouteView>,
    after: Map<i32, RouteView>,
    stop_id: i32,
)
    requires
        only_improves(timetable, before, after),
        before.contains_key(stop_id),
    ensures
        after.contains_key(stop_id),
        after[stop_id].arrival_at().timestamp() <= before[stop_id].arrival_at().timestamp(),
{
}

/// Arrivals that were lowered and lowered again were lowered.
pub proof fn lemma_only_lowers_is_transitive(
    first: Map<i32, DateTime>,
    second: Map<i32, DateTime>,
    third: Map<i32, DateTime>,
)
    requires
        only_lowers(first, second),
        only_lowers(second, third),
    ensures
        only_lowers(first, third),
{
    assert forall|stop_id: i32| #[trigger] first.contains_key(stop_id) implies third.contains_key(
        stop_id,
    ) && third[stop_id].timestamp() <= first[stop_id].timestamp() by {
        assert(second.contains_key(stop_id));
    }
}

/// Routes that were improved and improved again were improved.
pub proof fn lemma_only_improves_is_transitive(
    timetable: Timetable,
    first: Map<i32, RouteView>,
    second: Map<i32, RouteView>,
    third: Map<i32, RouteView>,
)
    requires
        only_improves(timetable, first, second),
        only_improves(timetable, second, third),
    ensures
        only_improves(timetable, first, third),
{
    assert forall|stop_id: i32| #[trigger] first.contains_key(stop_id) implies third.contains_key(
        stop_id,
    ) && (third[stop_id] == first[stop_id] || is_better(
        timetable,
        third[stop_id],
        first[stop_id],
    )) by {
        assert(second.contains_key(stop_id));
        if third[stop_id] != second[stop_id] && second[stop_id] != first[stop_id] {
            lemma_is_better_is_transitive(
                timetable,
                third[stop_id],
                second[stop_id],
                first[stop_id],
            );
        }
    }
}

/// Looking at a route, ended at each of the calls in turn, only improves the
/// routes that are known.
pub proof fn lemma_calls_only_improve(
    timetable: Timetable,
    route: RouteView,
    calls: Seq<JourneyRouteEntry>,
    solutions: Map<i32, RouteView>,
    time_limit: DateTime,
)
    ensures
        only_improves(
            timetable,
            solutions,
            evaluate_calls_spec(timetable, route, calls, solutions, time_limit),
        ),
    decreases calls.len(),
{
    if calls.len() > 0 {
        let before = evaluate_calls_spec(timetable, route, calls.drop_last(), solutions, time_limit);
        lemma_calls_only_improve(timetable, route, calls.drop_last(), solutions, time_limit);
        let after = evaluate_calls_spec(timetable, route, calls, solutions, time_limit);
        match update_arrival_stop_spec(timetable, route, calls.last().stop_id) {
            Some(candidate) => {
                assert(after == evaluate_candidate_spec(timetable, candidate, before, time_limit));
                assert(only_improves(timetable, before, after));
            },
            None => {
                assert(after == before);
            },
        }
        lemma_only_improves_is_transitive(timetable, solutions, before, after);
    }
}

/// Looking at a route only improves the routes that are known.
pub proof fn lemma_look_only_improves(
    timetable: Timetable,
    args: RoutingAlgorithmArgs,
    route: RouteView,
    solutions: Map<i32, RouteView>,
)
    ensures
        only_improves(timetable, solutions, can_continue_spec(timetable, args, route, solutions).0),
{
    match args.mode {
        RoutingAlgorithmMode::SolveFromDepartureStopToArrivalStop => {},
        RoutingAlgorithmMode::SolveFromDepartureStopToReachableArrivalStops => {
            match route.last_section().journey_id {
                Some(id) => {
                    lemma_calls_only_improve(
                        timetable,
                        route,
                        timetable.journey(id).route_section_spec(
                            route.last_section().departure_stop_id,
                            route.last_section().arrival_stop_id,
                        ),
                        solutions,
                        args.time_limit.unwrap(),
                    );
                },
                None => {},
            }
        },
    }
}

/// Whether the search goes on from the first of the routes to look at: the
/// route may still lead to a route of interest, and its last section does not
/// end where it began.
pub open spec fn goes_on(timetable: Timetable, args: RoutingAlgorithmArgs, state: Exploration)
    -> bool {
    &&& state.frontier.len() > 0
    &&& can_continue_spec(timetable, args, state.frontier[0], state.solutions).1
    &&& state.frontier[0].last_section().departure_stop_id
        != state.frontier[0].last_section().arrival_stop_id
}

/// Whether the search boards journeys and follows walks from the first of
/// the routes to look at.
pub open spec fn boards(timetable: Timetable, args: RoutingAlgorithmArgs, state: Exploration)
    -> bool {
    &&& goes_on(timetable, args, state)
    &&& can_explore_connections_spec(timetable, state.frontier[0], state.earliest_arrivals).1
}

/// A step forgets no arrival and no route: it leaves each stop with the
/// arrival that was known or an earlier one, and with the route that was known
/// or a better one.
pub proof fn lemma_step_keeps_what_is_known(
    timetable: Timetable,
    args: RoutingAlgorithmArgs,
    journeys_to_ignore: Set<i32>,
    state: Exploration,
)
    ensures
        only_lowers(
            state.earliest_arrivals,
            explore_step(timetable, args, journeys_to_ignore, state).earliest_arrivals,
        ),
        only_improves(
            timetable,
            state.solutions,
            explore_step(timetable, args, journeys_to_ignore, state).solutions,
        ),
{
    if state.frontier.len() > 0 {
        lemma_look_only_improves(timetable, args, state.frontier[0], state.solutions);
    }
}

/// So do any number of steps.
pub proof fn lemma_steps_keep_what_is_known(
    timetable: Timetable,
    args: RoutingAlgorithmArgs,
    journeys_to_ignore: Set<i32>,
    state: Exploration,
    from: nat,
    to: nat,
)
    requires
        from <= to,
    ensures
        only_lowers(
            explore_steps(timetable, args, journeys_to_ignore, state, from).earliest_arrivals,
            explore_steps(timetable, args, journeys_to_ignore, state, to).earliest_arrivals,
        ),
        only_improves(
            timetable,
            explore_steps(timetable, args, journeys_to_ignore, state, from).solutions,
            explore_steps(timetable, args, journeys_to_ignore, state, to).solutions,
        ),
    decreases to,
{
    if from < to {
        let first = explore_steps(timetable, args, journeys_to_ignore, state, from);
        let before = explore_steps(timetable, args, journeys_to_ignore, state, (to - 1) as nat);
        let after = explore_steps(timetable, args, journeys_to_ignore, state, to);
        lemma_steps_keep_what_is_known(
            timetable,
            args,
            journeys_to_ignore,
            state,
            from,
            (to - 1) as nat,
        );
        lemma_step_keeps_what_is_known(timetable, args, journeys_to_ignore, before);
        lemma_only_lowers_is_transitive(
            first.earliest_arrivals,
            before.earliest_arrivals,
            after.earliest_arrivals,
        );
        lemma_only_improves_is_transitive(
            timetable,
            first.solutions,
            before.solutions,
            after.solutions,
        );
    }
}

/// A round forgets no arrival and no route: it leaves each stop with the
/// arrival that was known or an earlier one, and with the route that was known
/// or a better one.
pub proof fn lemma_round_keeps_what_is_known(
    timetable: Timetable,
    args: RoutingAlgorithmArgs,
    journeys_to_ignore: Set<i32>,
    state: Exploration,
    outcome: Exploration,
)
    requires
        is_explored(timetable, args, journeys_to_ignore, state, outcome),
    ensures
        only_lowers(state.earliest_arrivals, outcome.earliest_arrivals),
        only_improves(timetable, state.solutions, outcome.solutions),
{
    let count = choose|count: nat|
        outcome == #[trigger] explore_steps(timetable, args, journeys_to_ignore, state, count)
            && outcome.frontier.len() == 0;
    lemma_steps_keep_what_is_known(timetable, args, journeys_to_ignore, state, 0, count);
}

/// Where the search goes on from a route that has arrived at a stop at which
/// passengers can change, the step leaves that stop with an arrival that is
/// no later than the route's.
pub proof fn lemma_step_records_the_arrival(
    timetable: Timetable,
    args: RoutingAlgorithmArgs,
    journeys_to_ignore: Set<i32>,
    state: Exploration,
)
    requires
        goes_on(timetable, args, state),
        is_exchange_point(timetable, state.frontier[0].arrival_stop_id()),
    ensures
        ({
            let route = state.frontier[0];
            let known = explore_step(timetable, args, journeys_to_ignore, state).earliest_arrivals;
            &&& known.contains_key(route.arrival_stop_id())
            &&& known[route.arrival_stop_id()].timestamp() <= route.arrival_at().timestamp()
        }),
{
}

/// No route from which a round goes on arrives at a stop at which passengers
/// can change before the arrival that the round ends with for that stop:
/// `state` is what the round begins with, `outcome` what it ends with, and
/// the route is the one looked at after `count` steps.
pub proof fn lemma_round_records_the_arrivals(
    timetable: Timetable,
    args: RoutingAlgorithmArgs,
    journeys_to_ignore: Set<i32>,
    state: Exploration,
    outcome: Exploration,
    count: nat,
)
    requires
        is_explored(timetable, args, journeys_to_ignore, state, outcome),
        goes_on(
            timetable,
            args,
            explore_steps(timetable, args, journeys_to_ignore, state, count),
        ),
        is_exchange_point(
            timetable,
            explore_steps(
                timetable,
                args,
                journeys_to_ignore,
                state,
                count,
            ).frontier[0].arrival_stop_id(),
        ),
    ensures
        ({
            let route = explore_steps(timetable, args, journeys_to_ignore, state, count).frontier[0];
            &&& outcome.earliest_arrivals.contains_key(route.arrival_stop_id())
            &&& outcome.earliest_arrivals[route.arrival_stop_id()].timestamp()
                <= route.arrival_at().timestamp()
        }),
{
    let total = choose|total: nat|
        outcome == #[trigger] explore_steps(timetable, args, journeys_to_ignore, state, total)
            && outcome.frontier.len() == 0;
    let at = explore_steps(timetable, args, journeys_to_ignore, state, count);
    if total <= count {
        lemma_explore_steps_rest(
            timetable,
            args,
            journeys_to_ignore,
            state,
            total,
            (count - total) as nat,
        );
        assert(at == outcome);
    } else {
        let next = explore_steps(timetable, args, journeys_to_ignore, state, count + 1);
        assert(next == explore_step(timetable, args, journeys_to_ignore, at));
        lemma_step_records_the_arrival(timetable, args, journeys_to_ignore, at);
        lemma_steps_keep_what_is_known(
            timetable,
            args,
            journeys_to_ignore,
            state,
            count + 1,
            total,
        );
        assert(next.earliest_arrivals.contains_key(at.frontier[0].arrival_stop_id()));
    }
}

/// Whether `known` holds, for every route from which a round that begins
/// with `state` goes on and which has arrived at a stop at which passengers
/// can change, an arrival at that stop that is no later than the route's.
pub open spec fn records_the_arrivals(
    timetable: Timetable,
    args: RoutingAlgorithmArgs,
    journeys_to_ignore: Set<i32>,
    state: Exploration,
    known: Map<i32, DateTime>,
) -> bool {
    forall|count: nat|
        {
            let at = #[trigger] explore_steps(timetable, args, journeys_to_ignore, state, count);
            goes_on(timetable, args, at) && is_exchange_point(
                timetable,
                at.frontier[0].arrival_stop_id(),
            ) ==> known.contains_key(at.frontier[0].arrival_stop_id())
                && known[at.frontier[0].arrival_stop_id()].timestamp()
                <= at.frontier[0].arrival_at().timestamp()
        }
}

/// What a round ends with holds such an arrival for every route from which
/// the round went on.
pub proof fn lemma_round_records_every_arrival(
    timetable: Timetable,
    args: RoutingAlgorithmArgs,
    journeys_to_ignore: Set<i32>,
    state: Exploration,
    outcome: Exploration,
)
    requires
        is_explored(timetable, args, journeys_to_ignore, state, outcome),
    ensures
        records_the_arrivals(timetable, args, journeys_to_ignore, state, outcome.earliest_arrivals),
{
    assert forall|count: nat|
        {
            let at = #[trigger] explore_steps(timetable, args, journeys_to_ignore, state, count);
            goes_on(timetable, args, at) && is_exchange_point(
                timetable,
                at.frontier[0].arrival_stop_id(),
            )
        } implies {
        let at = explore_steps(timetable, args, journeys_to_ignore, state, count);
        outcome.earliest_arrivals.contains_key(at.frontier[0].arrival_stop_id())
            && outcome.earliest_arrivals[at.frontier[0].arrival_stop_id()].timestamp()
            <= at.frontier[0].arrival_at().timestamp()
    } by {
        lemma_round_records_the_arrivals(
            timetable,
            args,
            journeys_to_ignore,
            state,
            outcome,
            count,
        );
    }
}

/// A step boards journeys and follows walks only from a route that has
/// arrived at a stop at which passengers can change, and earlier than any
/// arrival known for that stop so far; the route's arrival is then the one
/// known. After any other step the routes found for the next round are what
/// they were, and the routes to look at are the rest, with at most the route
/// carried on along its journey.
pub proof fn lemma_boards_only_when_first(
    timetable: Timetable,
    args: RoutingAlgorithmArgs,
    journeys_to_ignore: Set<i32>,
    state: Exploration,
)
    requires
        state.frontier.len() > 0,
    ensures
        ({
            let route = state.frontier[0];
            let stop_id = route.arrival_stop_id();
            let next = explore_step(timetable, args, journeys_to_ignore, state);
            &&& boards(timetable, args, state) ==> {
                &&& is_exchange_point(timetable, stop_id)
                &&& state.earliest_arrivals.contains_key(stop_id) ==> route.arrival_at().timestamp()
                    < state.earliest_arrivals[stop_id].timestamp()
                &&& next.earliest_arrivals.contains_key(stop_id)
                &&& next.earliest_arrivals[stop_id] == route.arrival_at()
            }
            &&& !boards(timetable, args, state) ==> {
                &&& next.found == state.found
                &&& next.earliest_arrivals == state.earliest_arrivals
                &&& next.frontier == state.frontier.drop_first() || next.frontier
                    == explore_more_spec(timetable, route, state.frontier.drop_first())
            }
        }),
{
}

} // verus!
