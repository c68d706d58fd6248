//! What holds of every route that fits a timetable, and of the choice between
//! two routes.
//!
//! Every route that a search builds, looks at or returns fits the timetable
//! of the search: the functions that build routes say so of what they return.
use crate::routing::exchange::exchange_time_spec;
use crate::routing::models::{RouteSection, RouteView};
use crate::routing::route_impl::{lemma_ride_result_has_instants, lemma_ride_times};
use crate::routing::utils::{
    insert_position, lemma_insert_position_in_range, sort_spec, sorted_insert_spec,
};
use crate::routing::solutions::{
    evaluate_candidate_spec,
    is_better,
    is_single_walk,
    passes_more_stops,
    stop_count,
};
use crate::timetable::{lemma_first_position, Timetable};
use crate::utils::DateTime;
use vstd::prelude::*;

verus! {

/// On a timetable whose journeys and walks take no less than no time, no
/// section of a route arrives before the section before it.
pub proof fn lemma_arrivals_never_decrease(timetable: Timetable, route: RouteView, i: int)
    requires
        timetable.wf(),
        timetable.is_chronological(),
        route.fits(timetable),
        0 <= i < route.sections.len() - 1,
    ensures
        route.sections[i].arrival_at.timestamp() <= route.sections[i + 1].arrival_at.timestamp(),
{
    assert(route.advances_at(timetable, i + 1));
    assert(route.changes_in_time_at(timetable, i) && route.boards_in_time_at(timetable, i));
}

/// Each section of a route begins at the stop at which the section before it
/// ended.
pub proof fn lemma_sections_are_joined(timetable: Timetable, route: RouteView, i: int)
    requires
        route.fits(timetable),
        0 <= i < route.sections.len() - 1,
    ensures
        route.sections[i].arrival_stop_id == route.sections[i + 1].departure_stop_id,
        route.section_results(timetable)[i].arrival_stop_id == route.section_results(
            timetable,
        )[i + 1].departure_stop_id,
{
    assert(route.is_joined_at(i));
}

/// A section reaches the stop at which it arrives.
pub proof fn lemma_section_reaches_its_end(timetable: Timetable, section: RouteSection)
    requires
        timetable.wf(),
        section.fits(timetable),
    ensures
        section.stops(timetable).contains(section.arrival_stop_id),
{
    match section.journey_id {
        Some(id) => {
            let journey = timetable.journey(id);
            lemma_first_position(journey.stop_ids(), section.arrival_stop_id, 1);
            let to = journey.arrival_position(section.arrival_stop_id);
            assert(journey.route@[to].stop_id == section.arrival_stop_id);
        },
        None => {},
    }
}

/// No section of a route ends at the stop where the route began or where a
/// section before it ended, but for a ride on a journey that ends where it
/// began.
pub proof fn lemma_no_stop_is_reached_twice(timetable: Timetable, route: RouteView, i: int, j: int)
    requires
        timetable.wf(),
        route.fits(timetable),
        0 <= i < j < route.sections.len(),
        !route.is_round_trip_at(timetable, j),
    ensures
        route.sections[j].arrival_stop_id != route.sections[i].arrival_stop_id,
        route.sections[j].arrival_stop_id != route.sections[0].departure_stop_id,
{
    assert(route.is_new_at(timetable, j));
    assert(route.sections[j].fits(timetable));
    assert(route.sections[i].fits(timetable));
    lemma_section_reaches_its_end(timetable, route.sections[j]);
    lemma_section_reaches_its_end(timetable, route.sections[i]);
    let reached = route.sections[j].arrival_stop_id;
    assert(route.passes(timetable, j, reached));
    assert(!route.was_at_before(timetable, j, reached));
    if reached == route.sections[i].arrival_stop_id {
        assert(route.passes(timetable, i, reached));
    }
}

/// A route that ends at the stop where it began ends with a ride on a journey
/// that ends where it began.
pub proof fn lemma_way_back_is_a_round_trip(timetable: Timetable, route: RouteView)
    requires
        timetable.wf(),
        route.fits(timetable),
        route.has_ride(),
        route.arrival_stop_id() == route.sections[0].departure_stop_id,
    ensures
        route.is_round_trip_at(timetable, route.sections.len() - 1),
{
    let last = route.sections.len() - 1;
    let section = route.sections[last];
    assert(section.fits(timetable));
    if last > 0 {
        if !route.is_round_trip_at(timetable, last) {
            lemma_no_stop_is_reached_twice(timetable, route, 0, last);
        }
    } else {
        let ride = choose|i: int|
            0 <= i < route.sections.len() && (#[trigger] route.sections[i]).is_ride();
        let journey = timetable.journey(section.journey_id.unwrap());
        assert(journey.wf());
        lemma_first_position(journey.stop_ids(), section.departure_stop_id, 0);
        lemma_first_position(journey.stop_ids(), section.arrival_stop_id, 1);
        let from = journey.departure_position(section.departure_stop_id);
        let to = journey.arrival_position(section.arrival_stop_id);
        assert(journey.route@[from].stop_id == journey.route@[to].stop_id);
    }
}

/// A route has visited every stop that one of its sections passes or reaches.
pub proof fn lemma_stops_are_visited(timetable: Timetable, route: RouteView, i: int, stop_id: i32)
    requires
        route.fits(timetable),
        0 <= i < route.sections.len(),
        route.sections[i].stops(timetable).contains(stop_id),
    ensures
        route.visited_stops.contains(stop_id),
{
    assert(route.passes(timetable, i, stop_id));
}

/// Between two rides of a route, the second leaves when the first has arrived
/// and the time that the change takes at the stop has gone by, or later. The
/// instant at which the second leaves is the one with which the ride is
/// handed out.
pub proof fn lemma_exchange_time_is_honoured(timetable: Timetable, route: RouteView, i: int)
    requires
        timetable.wf(),
        route.fits(timetable),
        0 <= i < route.sections.len() - 1,
        route.sections[i].is_ride(),
        route.sections[i + 1].is_ride(),
    ensures
        ({
            let arrived = route.section_results(timetable)[i];
            let boarded = route.section_results(timetable)[i + 1];
            &&& arrived.arrival_at == Some(route.sections[i].arrival_at)
            &&& boarded.departure_at == Some(route.sections[i + 1].departure_at(timetable))
            &&& arrived.arrival_stop_id == boarded.departure_stop_id
            &&& boarded.departure_at.unwrap().timestamp() - arrived.arrival_at.unwrap().timestamp()
                >= 60 * exchange_time_spec(
                timetable,
                boarded.departure_stop_id,
                arrived.journey_id.unwrap(),
                boarded.journey_id.unwrap(),
                boarded.departure_at.unwrap(),
            )
        }),
{
    assert(route.changes_in_time_at(timetable, i) && route.boards_in_time_at(timetable, i));
    assert(route.is_joined_at(i));
    assert(route.sections[i].fits(timetable));
    assert(route.sections[i + 1].fits(timetable));
    lemma_ride_result_has_instants(timetable, route.sections[i]);
    lemma_ride_result_has_instants(timetable, route.sections[i + 1]);
}

/// A ride of a route leaves when the section before it has arrived, or later.
pub proof fn lemma_rides_leave_after_arrival(timetable: Timetable, route: RouteView, i: int)
    requires
        timetable.wf(),
        route.fits(timetable),
        0 <= i < route.sections.len() - 1,
        route.sections[i + 1].is_ride(),
    ensures
        route.sections[i].arrival_at.timestamp() <= route.sections[i + 1].departure_at(
            timetable,
        ).timestamp(),
{
    assert(route.changes_in_time_at(timetable, i) && route.boards_in_time_at(timetable, i));
}

/// A ride of a route leaves and arrives on the run of its journey that began
/// on one day of the timetable.
pub proof fn lemma_rides_are_on_one_run(timetable: Timetable, route: RouteView, i: int)
    requires
        timetable.wf(),
        route.fits(timetable),
        0 <= i < route.sections.len(),
        route.sections[i].is_ride(),
    ensures
        ({
            let ride = route.sections[i];
            let journey = timetable.journey(ride.journey_id.unwrap());
            &&& timetable.start_date.days <= ride.journey_day(timetable) <= timetable.end_date.days
            &&& ride.departure_at(timetable).timestamp() == ride.journey_day(timetable) * 86_400
                + journey.departure_offset(journey.departure_position(ride.departure_stop_id))
            &&& ride.arrival_at.timestamp() == ride.journey_day(timetable) * 86_400
                + journey.arrival_offset(journey.arrival_position(ride.arrival_stop_id))
        }),
{
    assert(route.sections[i].fits(timetable));
    lemma_ride_times(timetable, route.sections[i]);
}

/// After a route that is not a single walk and arrives by the limit has been
/// looked at, a route to its stop is known that arrives no later.
pub proof fn lemma_candidate_is_covered(
    timetable: Timetable,
    candidate: RouteView,
    solutions: Map<i32, RouteView>,
    time_limit: DateTime,
)
    requires
        !is_single_walk(candidate),
        candidate.arrival_at().timestamp() <= time_limit.timestamp(),
    ensures
        ({
            let known = evaluate_candidate_spec(timetable, candidate, solutions, time_limit);
            &&& known.contains_key(candidate.arrival_stop_id())
            &&& known[candidate.arrival_stop_id()].arrival_at().timestamp()
                <= candidate.arrival_at().timestamp()
            &&& !is_better(timetable, candidate, known[candidate.arrival_stop_id()])
        }),
{
    let known = evaluate_candidate_spec(timetable, candidate, solutions, time_limit);
    if known[candidate.arrival_stop_id()] == candidate {
        lemma_is_better_is_irreflexive(timetable, candidate);
    }
}

/// Looking at a route takes no route away and leaves each stop with the
/// route that was known to it or with a better one.
pub proof fn lemma_known_routes_only_get_better(
    timetable: Timetable,
    candidate: RouteView,
    solutions: Map<i32, RouteView>,
    time_limit: DateTime,
    stop_id: i32,
)
    requires
        solutions.contains_key(stop_id),
    ensures
        ({
            let known = evaluate_candidate_spec(timetable, candidate, solutions, time_limit);
            &&& known.contains_key(stop_id)
            &&& known[stop_id] == solutions[stop_id] || is_better(
                timetable,
                known[stop_id],
                solutions[stop_id],
            )
            &&& known[stop_id].arrival_at().timestamp() <= solutions[stop_id].arrival_at().timestamp()
        }),
{
}

/// No route is better than itself.
pub proof fn lemma_is_better_is_irreflexive(timetable: Timetable, route: RouteView)
    ensures
        !is_better(timetable, route, route),
{
    lemma_passes_more_stops_is_asymmetric(timetable, route.rides(), route.rides(), 0);
}

/// Of two routes, one at most is better than the other.
pub proof fn lemma_is_better_is_asymmetric(timetable: Timetable, first: RouteView, second: RouteView)
    requires
        is_better(timetable, first, second),
    ensures
        !is_better(timetable, second, first),
{
    if first.rides().len() == second.rides().len() {
        lemma_passes_more_stops_is_asymmetric(timetable, first.rides(), second.rides(), 0);
    }
}

/// A route that is better than a route that is better than a third is better
/// than the third.
pub proof fn lemma_is_better_is_transitive(
    timetable: Timetable,
    first: RouteView,
    second: RouteView,
    third: RouteView,
)
    requires
        is_better(timetable, first, second),
        is_better(timetable, second, third),
    ensures
        is_better(timetable, first, third),
{
    if first.arrival_at().timestamp() == second.arrival_at().timestamp()
        && second.arrival_at().timestamp() == third.arrival_at().timestamp() && first.rides().len()
        == second.rides().len() && second.rides().len() == third.rides().len() {
        lemma_passes_more_stops_is_transitive(
            timetable,
            first.rides(),
            second.rides(),
            third.rides(),
            0,
        );
    }
}

/// Two routes tie: they arrive together, with as many rides, which pass as
/// many stops each.
pub open spec fn ties(timetable: Timetable, first: RouteView, second: RouteView) -> bool {
    &&& first.arrival_at().timestamp() == second.arrival_at().timestamp()
    &&& first.rides().len() == second.rides().len()
    &&& forall|i: int|
        0 <= i < first.rides().len() ==> stop_count(timetable, #[trigger] first.rides()[i])
            == stop_count(timetable, second.rides()[i])
}

/// Of two routes, one is better than the other, or they tie.
pub proof fn lemma_is_better_is_total(timetable: Timetable, first: RouteView, second: RouteView)
    ensures
        is_better(timetable, first, second) || is_better(timetable, second, first) || ties(
            timetable,
            first,
            second,
        ),
{
    if first.arrival_at().timestamp() == second.arrival_at().timestamp() && first.rides().len()
        == second.rides().len() && !passes_more_stops(
        timetable,
        first.rides(),
        second.rides(),
        0,
    ) && !passes_more_stops(timetable, second.rides(), first.rides(), 0) {
        lemma_passes_more_stops_is_total(timetable, first.rides(), second.rides(), 0);
    }
}

/// Routes that tie with one route are better and worse than the same routes.
pub proof fn lemma_ties_are_alike(
    timetable: Timetable,
    first: RouteView,
    second: RouteView,
    other: RouteView,
)
    requires
        ties(timetable, first, second),
    ensures
        is_better(timetable, first, other) == is_better(timetable, second, other),
        is_better(timetable, other, first) == is_better(timetable, other, second),
{
    if first.rides().len() == other.rides().len() {
        lemma_passes_more_stops_of_ties(timetable, first.rides(), second.rides(), other.rides(), 0);
    }
}

proof fn lemma_passes_more_stops_is_asymmetric(
    timetable: Timetable,
    rides_1: Seq<RouteSection>,
    rides_2: Seq<RouteSection>,
    from: int,
)
    requires
        rides_1.len() == rides_2.len(),
        0 <= from,
    ensures
        !(passes_more_stops(timetable, rides_1, rides_2, from) && passes_more_stops(
            timetable,
            rides_2,
            rides_1,
            from,
        )),
    decreases rides_1.len() - from,
{
    if from < rides_1.len() {
        lemma_passes_more_stops_is_asymmetric(timetable, rides_1, rides_2, from + 1);
    }
}

proof fn lemma_passes_more_stops_is_transitive(
    timetable: Timetable,
    rides_1: Seq<RouteSection>,
    rides_2: Seq<RouteSection>,
    rides_3: Seq<RouteSection>,
    from: int,
)
    requires
        rides_1.len() == rides_2.len(),
        rides_2.len() == rides_3.len(),
        0 <= from,
        passes_more_stops(timetable, rides_1, rides_2, from),
        passes_more_stops(timetable, rides_2, rides_3, from),
    ensures
        passes_more_stops(timetable, rides_1, rides_3, from),
    decreases rides_1.len() - from,
{
    if from < rides_1.len() {
        if stop_count(timetable, rides_1[from]) == stop_count(timetable, rides_2[from])
            && stop_count(timetable, rides_2[from]) == stop_count(timetable, rides_3[from]) {
            lemma_passes_more_stops_is_transitive(timetable, rides_1, rides_2, rides_3, from + 1);
        }
    }
}

proof fn lemma_passes_more_stops_is_total(
    timetable: Timetable,
    rides_1: Seq<RouteSection>,
    rides_2: Seq<RouteSection>,
    from: int,
)
    requires
        rides_1.len() == rides_2.len(),
        0 <= from,
        !passes_more_stops(timetable, rides_1, rides_2, from),
        !passes_more_stops(timetable, rides_2, rides_1, from),
    ensures
        forall|i: int|
            from <= i < rides_1.len() ==> stop_count(timetable, #[trigger] rides_1[i])
                == stop_count(timetable, rides_2[i]),
    decreases rides_1.len() - from,
{
    if from < rides_1.len() {
        lemma_passes_more_stops_is_total(timetable, rides_1, rides_2, from + 1);
    }
}

proof fn lemma_passes_more_stops_of_ties(
    timetable: Timetable,
    rides_1: Seq<RouteSection>,
    rides_2: Seq<RouteSection>,
    rides_3: Seq<RouteSection>,
    from: int,
)
    requires
        rides_1.len() == rides_2.len(),
        rides_2.len() == rides_3.len(),
        0 <= from,
        forall|i: int|
            0 <= i < rides_1.len() ==> stop_count(timetable, #[trigger] rides_1[i]) == stop_count(
                timetable,
                rides_2[i],
            ),
    ensures
        passes_more_stops(timetable, rides_1, rides_3, from) == passes_more_stops(
            timetable,
            rides_2,
            rides_3,
            from,
        ),
        passes_more_stops(timetable, rides_3, rides_1, from) == passes_more_stops(
            timetable,
            rides_3,
            rides_2,
            from,
        ),
    decreases rides_1.len() - from,
{
    if from < rides_1.len() {
        assert(stop_count(timetable, rides_1[from]) == stop_count(timetable, rides_2[from]));
        lemma_passes_more_stops_of_ties(timetable, rides_1, rides_2, rides_3, from + 1);
    }
}

/// The routes arrive in their order: none before the one before it.
pub open spec fn is_ordered(routes: Seq<RouteView>) -> bool {
    forall|i: int, j: int|
        0 <= i < j < routes.len() ==> (#[trigger] routes[i]).arrival_at().timestamp() <= (
        #[trigger] routes[j]).arrival_at().timestamp()
}

/// Whether a route arrives at the instant with the given timestamp.
pub open spec fn arrives_at(timestamp: int) -> spec_fn(RouteView) -> bool {
    |route: RouteView| route.arrival_at().timestamp() == timestamp
}

/// The place that [`insert_position`] finds lies behind every route that
/// arrives no later than the instant, and at a route that arrives later.
pub proof fn lemma_insert_position(routes: Seq<RouteView>, arrival_at: DateTime)
    ensures
        0 <= insert_position(routes, arrival_at) <= routes.len(),
        forall|i: int|
            0 <= i < insert_position(routes, arrival_at) ==> (
            #[trigger] routes[i]).arrival_at().timestamp() <= arrival_at.timestamp(),
        insert_position(routes, arrival_at) < routes.len() ==> arrival_at.timestamp()
            < routes[insert_position(routes, arrival_at)].arrival_at().timestamp(),
    decreases routes.len(),
{
    if routes.len() > 0 && arrival_at.timestamp() >= routes[0].arrival_at().timestamp() {
        lemma_insert_position(routes.drop_first(), arrival_at);
        let rest = insert_position(routes.drop_first(), arrival_at);
        assert forall|i: int| 0 <= i < rest + 1 implies (
        #[trigger] routes[i]).arrival_at().timestamp() <= arrival_at.timestamp() by {
            if i > 0 {
                assert(routes[i] == routes.drop_first()[i - 1]);
            }
        }
        if rest < routes.drop_first().len() {
            assert(routes[rest + 1] == routes.drop_first()[rest]);
        }
    }
}

/// Routes in the order of their arrival stay so with one more put in its
/// place among them.
pub proof fn lemma_sorted_insert_is_ordered(routes: Seq<RouteView>, route: RouteView)
    requires
        is_ordered(routes),
    ensures
        is_ordered(sorted_insert_spec(routes, route)),
{
    lemma_insert_position(routes, route.arrival_at());
    let at = insert_position(routes, route.arrival_at());
    let result = sorted_insert_spec(routes, route);
    assert forall|i: int, j: int| 0 <= i < j < result.len() implies (
    #[trigger] result[i]).arrival_at().timestamp() <= (
    #[trigger] result[j]).arrival_at().timestamp() by {
        if j < at {
            assert(result[i] == routes[i] && result[j] == routes[j]);
        } else if j == at {
            assert(result[i] == routes[i]);
        } else if i < at {
            assert(result[i] == routes[i] && result[j] == routes[j - 1]);
            assert(routes[at].arrival_at().timestamp() <= routes[j - 1].arrival_at().timestamp()
                || at == j - 1);
        } else if i == at {
            assert(result[j] == routes[j - 1]);
            assert(routes[at].arrival_at().timestamp() <= routes[j - 1].arrival_at().timestamp()
                || at == j - 1);
        } else {
            assert(result[i] == routes[i - 1] && result[j] == routes[j - 1]);
        }
    }
}

/// What [`sort_spec`] returns is in the order of arrival.
pub proof fn lemma_sort_is_ordered(routes: Seq<RouteView>)
    ensures
        is_ordered(sort_spec(routes)),
    decreases routes.len(),
{
    if routes.len() > 0 {
        lemma_sort_is_ordered(routes.drop_last());
        lemma_sorted_insert_is_ordered(sort_spec(routes.drop_last()), routes.last());
    }
}

/// What [`sort_spec`] returns holds the routes that it was given, each as
/// often as it was given.
pub proof fn lemma_sort_is_a_permutation(routes: Seq<RouteView>)
    ensures
        sort_spec(routes).to_multiset() == routes.to_multiset(),
    decreases routes.len(),
{
    if routes.len() > 0 {
        let before = sort_spec(routes.drop_last());
        lemma_sort_is_a_permutation(routes.drop_last());
        lemma_insert_position_in_range(before, routes.last().arrival_at());
        vstd::seq_lib::to_multiset_insert(
            before,
            insert_position(before, routes.last().arrival_at()),
            routes.last(),
        );
        vstd::seq_lib::to_multiset_build(routes.drop_last(), routes.last());
        assert(routes.drop_last().push(routes.last()) == routes);
    } else {
        assert(sort_spec(routes) == routes);
    }
}

/// Routes that arrive at one instant keep their order when they are put in
/// the order of arrival.
pub proof fn lemma_sort_is_stable(routes: Seq<RouteView>, timestamp: int)
    ensures
        sort_spec(routes).filter(arrives_at(timestamp)) == routes.filter(arrives_at(timestamp)),
    decreases routes.len(),
{
    reveal(Seq::filter);
    if routes.len() > 0 {
        let before = sort_spec(routes.drop_last());
        let last = routes.last();
        lemma_sort_is_stable(routes.drop_last(), timestamp);
        lemma_sort_is_ordered(routes.drop_last());
        lemma_insert_position(before, last.arrival_at());
        let at = insert_position(before, last.arrival_at());
        let pred = arrives_at(timestamp);
        let front = before.take(at);
        let back = before.skip(at);
        assert(before == front + back);
        assert(sort_spec(routes) =~= front.push(last) + back);
        Seq::filter_distributes_over_add(front, back, pred);
        Seq::filter_distributes_over_add(front.push(last), back, pred);
        front.lemma_filter_push(last, pred);
        if pred(last) {
            assert forall|i: int| 0 <= i < back.len() implies !pred(#[trigger] back[i]) by {
                assert(back[i] == before[at + i]);
                assert(before[at].arrival_at().timestamp() <= before[at + i].arrival_at().timestamp()
                    || i == 0);
            }
            back.lemma_all_neg_filter_empty(pred);
        }
    }
}

} // verus!
