//! What a search was asked, and what it means for a route to answer it.
//!
//! Every route of a search begins at the stop of departure, at the instant of
//! departure or later; and in a search for one stop, a route that has been at
//! that stop has reached it with its last section or has one section only.
use crate::routing::exploration::walk_by;
use crate::routing::solutions::lemma_update_arrival_stop_fits;
use crate::routing::guarantees::lemma_arrivals_never_decrease;
use crate::routing::route_impl::{
    lemma_ride_result_has_instants, lemma_ride_times, lemma_rides_at_the_ends,
};
use crate::routing::models::{
    RouteSection, RouteSectionResult, RouteView, RoutingAlgorithmArgs, RoutingAlgorithmMode,
};
use crate::routing::route_impl::{
    extend_spec, is_boarded_in_time, lemma_extend_fits, lemma_found_section, lemma_same_departure,
};
use crate::routing::solutions::update_arrival_stop_spec;
use crate::routing::utils::{lemma_sorted_insert_keeps, sort_spec, sorted_insert_spec};
use crate::journey::day_flag;
use crate::timetable::{lemma_first_position, StopConnection, Timetable};
use crate::utils::Date;
use vstd::prelude::*;

verus! {

/// What a search was asked.
pub struct Query {
    /// The stop at which every route begins.
    pub departure_stop_id: i32,
    /// Timestamp of the instant before which no route sets out.
    pub departure_at: int,
    /// The stop to reach, in a search for one stop.
    pub arrival_stop_id: Option<i32>,
}

impl RouteView {
    /// Timestamp of the instant at which the route sets out: its first ride
    /// leaves, or the walk with which it begins.
    pub open spec fn sets_out_at(self, timetable: Timetable) -> int {
        let first = self.sections[0];
        if first.is_ride() {
            first.departure_at(timetable).timestamp()
        } else {
            first.arrival_at.timestamp() - 60 * first.duration.unwrap()
        }
    }

    /// The route begins where and when `other` does.
    pub open spec fn begins_like(self, timetable: Timetable, other: RouteView) -> bool {
        &&& self.sections[0].departure_stop_id == other.sections[0].departure_stop_id
        &&& self.sets_out_at(timetable) == other.sets_out_at(timetable)
    }

    /// Where the route has been at the stop, it has one section only or has
    /// reached the stop with its last section.
    pub open spec fn heads_for(self, timetable: Timetable, stop_id: i32) -> bool {
        self.visited_stops.contains(stop_id) ==> self.sections.len() == 1 || self.passes(
            timetable,
            self.sections.len() - 1,
            stop_id,
        )
    }

    /// The route has not been at the stop that a search is to reach.
    pub open spec fn is_short_of(self, arrival_stop_id: Option<i32>) -> bool {
        arrival_stop_id matches Some(stop_id) ==> !self.visited_stops.contains(stop_id)
    }

    /// The route begins where and when `other` does, and has reached with its
    /// last section every stop at which `other` has not been.
    pub open spec fn succeeds(self, timetable: Timetable, other: RouteView) -> bool {
        &&& self.begins_like(timetable, other)
        &&& forall|stop_id: i32|
            !other.visited_stops.contains(stop_id) ==> #[trigger] self.heads_for(
                timetable,
                stop_id,
            )
    }

    /// The route is a route of the search.
    pub open spec fn answers(self, timetable: Timetable, query: Query) -> bool {
        &&& self.sections[0].departure_stop_id == query.departure_stop_id
        &&& query.departure_at <= self.sets_out_at(timetable)
        &&& query.arrival_stop_id matches Some(stop_id) ==> self.heads_for(timetable, stop_id)
    }

    /// The route is a route that the search has found: it begins where and
    /// when the search does, and ends at the stop that the search is to reach.
    pub open spec fn solves(self, timetable: Timetable, query: Query) -> bool {
        &&& self.sections[0].departure_stop_id == query.departure_stop_id
        &&& query.departure_at <= self.sets_out_at(timetable)
        &&& query.arrival_stop_id matches Some(stop_id) ==> self.arrival_stop_id() == stop_id
    }
}

impl RoutingAlgorithmArgs {
    /// The stop to reach, in a search for one stop.
    pub open spec fn target(self) -> Option<i32> {
        match self.mode {
            RoutingAlgorithmMode::SolveFromDepartureStopToArrivalStop => self.arrival_stop_id,
            RoutingAlgorithmMode::SolveFromDepartureStopToReachableArrivalStops => None,
        }
    }
}

/// Every one of the routes succeeds `route`.
pub open spec fn all_succeed(timetable: Timetable, routes: Seq<RouteView>, route: RouteView)
    -> bool {
    forall|i: int| 0 <= i < routes.len() ==> (#[trigger] routes[i]).succeeds(timetable, route)
}

/// Every one of the routes is a route of the search.
pub open spec fn all_answer(timetable: Timetable, routes: Seq<RouteView>, query: Query) -> bool {
    forall|i: int| 0 <= i < routes.len() ==> (#[trigger] routes[i]).answers(timetable, query)
}

/// Every route of the map is a route that the search has found.
pub open spec fn all_solve(timetable: Timetable, solutions: Map<i32, RouteView>, query: Query)
    -> bool {
    forall|stop_id: i32| #[trigger]
        solutions.contains_key(stop_id) ==> solutions[stop_id].solves(timetable, query)
}

/// A route that is extended begins where and when it began, and has reached
/// with its last section every stop at which it had not been.
pub proof fn lemma_extend_answers(
    timetable: Timetable,
    route: RouteView,
    journey_id: i32,
    date: Date,
    is_departure_date: bool,
)
    requires
        timetable.wf(),
        route.fits(timetable),
        timetable.has_journey(journey_id),
        i32::MIN < date.days < i32::MAX,
        extend_spec(timetable, route, journey_id, date, is_departure_date).is_some(),
        timetable.start_date.days <= date.days - day_flag(
            timetable.journey(journey_id).origin_is_next_day(
                route.arrival_stop_id(),
                is_departure_date,
            ).unwrap(),
        ) <= timetable.end_date.days,
        is_boarded_in_time(timetable, route, journey_id, date, is_departure_date),
    ensures
        extend_spec(timetable, route, journey_id, date, is_departure_date).unwrap().succeeds(
            timetable,
            route,
        ),
{
    lemma_extend_fits(timetable, route, journey_id, date, is_departure_date);
    lemma_found_section(timetable, journey_id, route.arrival_stop_id(), date, is_departure_date);
    let journey = timetable.journey(journey_id);
    let new = extend_spec(timetable, route, journey_id, date, is_departure_date).unwrap();
    let last = route.sections.len() - 1;
    let old_last = route.sections[last];
    assert(old_last.fits(timetable));
    let from = journey.departure_position(route.arrival_stop_id());
    let continues = route.last_section().journey_id == Some(journey_id);
    if continues {
        assert(new.sections[last].fits(timetable));
        lemma_same_departure(timetable, old_last, new.sections[last]);
        if last > 0 {
            assert(new.sections[0] == route.sections[0]);
        }
        lemma_first_position(journey.stop_ids(), route.arrival_stop_id(), 1);
        lemma_first_position(journey.stop_ids(), route.arrival_stop_id(), 0);
        assert(journey.departure_position(old_last.departure_stop_id) < from);
    } else {
        assert(new.sections[0] == route.sections[0]);
    }
    assert forall|stop_id: i32| !route.visited_stops.contains(stop_id) implies #[trigger] new.heads_for(
        timetable,
        stop_id,
    ) by {
        if new.visited_stops.contains(stop_id) {
            let k = choose|k: int|
                from < k <= journey.arrival_position(new.arrival_stop_id()) && 0 <= k
                    < journey.route@.len() && (#[trigger] journey.route@[k]).stop_id == stop_id;
            assert(new.passes(timetable, new.sections.len() - 1, stop_id));
        }
    }
}

/// A route whose last ride is ended at a stop on its way begins where and
/// when it began, and ends at that stop.
pub proof fn lemma_update_arrival_stop_solves(
    timetable: Timetable,
    route: RouteView,
    arrival_stop_id: i32,
)
    requires
        timetable.wf(),
        route.fits(timetable),
        route.last_section().is_ride(),
        update_arrival_stop_spec(timetable, route, arrival_stop_id).is_some(),
    ensures
        update_arrival_stop_spec(timetable, route, arrival_stop_id).unwrap().begins_like(
            timetable,
            route,
        ),
        update_arrival_stop_spec(timetable, route, arrival_stop_id).unwrap().arrival_stop_id()
            == arrival_stop_id,
{
    lemma_update_arrival_stop_fits(timetable, route, arrival_stop_id);
    let new = update_arrival_stop_spec(timetable, route, arrival_stop_id).unwrap();
    let last = route.sections.len() - 1;
    assert(route.sections[last].fits(timetable));
    assert(new.sections[last].fits(timetable));
    lemma_same_departure(timetable, route.sections[last], new.sections[last]);
    if last > 0 {
        assert(new.sections[0] == route.sections[0]);
    }
}

/// A route that is carried on by a walk begins where and when it began, and
/// has reached with the walk every stop at which it had not been.
pub proof fn lemma_walk_answers(timetable: Timetable, route: RouteView, connection: StopConnection)
    requires
        route.sections.len() > 0,
    ensures
        walk_by(route, connection).succeeds(timetable, route),
{
    let new = walk_by(route, connection);
    assert(new.sections[0] == route.sections[0]);
    assert forall|stop_id: i32| !route.visited_stops.contains(stop_id) implies #[trigger] new.heads_for(
        timetable,
        stop_id,
    ) by {
        if new.visited_stops.contains(stop_id) {
            assert(stop_id == connection.stop_id_2);
            assert(new.sections[new.sections.len() - 1].stops(timetable).contains(stop_id));
        }
    }
}

/// A route that begins like a route of the search and has reached with its
/// last section every stop at which that route had not been is a route of
/// the search, where that route had not been at the stop to reach.
pub proof fn lemma_successor_answers(
    timetable: Timetable,
    route: RouteView,
    new: RouteView,
    query: Query,
)
    requires
        route.answers(timetable, query),
        route.is_short_of(query.arrival_stop_id),
        new.succeeds(timetable, route),
    ensures
        new.answers(timetable, query),
{
    match query.arrival_stop_id {
        Some(stop_id) => {
            assert(new.heads_for(timetable, stop_id));
        },
        None => {},
    }
}

/// A route of a search that has been at the stop to reach and is no single
/// walk ends there, where it ends with a walk.
pub proof fn lemma_walked_to_the_stop(timetable: Timetable, route: RouteView, query: Query)
    requires
        route.answers(timetable, query),
        route.sections.len() > 1,
        route.last_section().journey_id.is_none(),
        query.arrival_stop_id matches Some(stop_id) && route.visited_stops.contains(stop_id),
    ensures
        route.solves(timetable, query),
{
    let stop_id = query.arrival_stop_id.unwrap();
    assert(route.heads_for(timetable, stop_id));
    assert(route.passes(timetable, route.sections.len() - 1, stop_id));
}

/// Routes of a search are still routes of the search with one more put in
/// its place among them.
pub proof fn lemma_sorted_insert_answers(
    timetable: Timetable,
    routes: Seq<RouteView>,
    route: RouteView,
    query: Query,
)
    requires
        all_answer(timetable, routes, query),
        route.answers(timetable, query),
    ensures
        all_answer(timetable, sorted_insert_spec(routes, route), query),
{
    lemma_sorted_insert_keeps(routes, route);
    let result = sorted_insert_spec(routes, route);
    assert forall|i: int| 0 <= i < result.len() implies (#[trigger] result[i]).answers(
        timetable,
        query,
    ) by {
        if result[i] != route {
            assert(routes.contains(result[i]));
            let k = choose|k: int| 0 <= k < routes.len() && routes[k] == result[i];
            assert(routes[k].answers(timetable, query));
        }
    }
}

/// Routes of a search are still routes of the search in the order of their
/// arrival.
pub proof fn lemma_sort_answers(timetable: Timetable, routes: Seq<RouteView>, query: Query)
    requires
        all_answer(timetable, routes, query),
    ensures
        all_answer(timetable, sort_spec(routes), query),
    decreases routes.len(),
{
    if routes.len() > 0 {
        assert forall|i: int| 0 <= i < routes.drop_last().len() implies (
        #[trigger] routes.drop_last()[i]).answers(timetable, query) by {
            assert(routes.drop_last()[i] == routes[i]);
        }
        lemma_sort_answers(timetable, routes.drop_last(), query);
        assert(routes.last().answers(timetable, query));
        lemma_sorted_insert_answers(timetable, sort_spec(routes.drop_last()), routes.last(), query);
    }
}

/// Every one of the routes has one section, begins at the stop, and sets out
/// at the instant with the given timestamp or later.
pub open spec fn all_begin(
    timetable: Timetable,
    routes: Seq<RouteView>,
    departure_stop_id: i32,
    departure_at: int,
) -> bool {
    forall|i: int|
        0 <= i < routes.len() ==> (#[trigger] routes[i]).sections.len() == 1
            && routes[i].sections[0].departure_stop_id == departure_stop_id && departure_at
            <= routes[i].sets_out_at(timetable)
}

/// Routes of one section that begin at the stop of departure, at the instant
/// of departure or later, are routes of the search, whatever stop it is to
/// reach.
pub proof fn lemma_first_routes_answer(timetable: Timetable, routes: Seq<RouteView>, query: Query)
    requires
        all_begin(timetable, routes, query.departure_stop_id, query.departure_at),
    ensures
        all_answer(timetable, routes, query),
{
    assert forall|i: int| 0 <= i < routes.len() implies (#[trigger] routes[i]).answers(
        timetable,
        query,
    ) by {
        assert(routes[i].sections.len() == 1);
    }
}

/// On a timetable whose journeys and walks take no less than no time, no
/// section of a route arrives before a section before it.
pub proof fn lemma_arrivals_are_ordered(timetable: Timetable, route: RouteView, i: int, j: int)
    requires
        timetable.wf(),
        timetable.is_chronological(),
        route.fits(timetable),
        0 <= i <= j < route.sections.len(),
    ensures
        route.sections[i].arrival_at.timestamp() <= route.sections[j].arrival_at.timestamp(),
    decreases j - i,
{
    if i < j {
        lemma_arrivals_are_ordered(timetable, route, i, j - 1);
        lemma_arrivals_never_decrease(timetable, route, j - 1);
    }
}

/// A route that a search has found is handed out as a route from the stop of
/// departure to the stop that the search is to reach, with the arrival of its
/// last section, be that a ride or a walk; its first ride leaves at the instant
/// of departure or later. On a timetable whose journeys and walks take no less
/// than no time, that holds of a route that begins with a walk too, and the
/// route is handed out with an arrival that is not before its departure.
pub proof fn lemma_result_of_solution(timetable: Timetable, route: RouteView, query: Query)
    requires
        timetable.wf(),
        route.fits(timetable),
        route.has_ride(),
        route.solves(timetable, query),
    ensures
        ({
            let result = route.to_route_result_spec(timetable);
            let last = result.sections.len() - 1;
            &&& result.sections.len() == route.sections.len()
            &&& result.sections.len() > 0
            &&& result.sections[0].departure_stop_id == query.departure_stop_id
            &&& query.arrival_stop_id matches Some(stop_id) ==> result.sections[last].arrival_stop_id
                == stop_id
            &&& result.sections[last].arrival_stop_id == route.arrival_stop_id()
            &&& route.sections[0].is_ride() || timetable.is_chronological() ==> query.departure_at
                <= result.departure_at.timestamp()
            &&& result.arrival_at == route.arrival_at()
            &&& result.arrival_at.wf()
            &&& result.departure_at.wf()
            &&& timetable.is_chronological() ==> result.departure_at.timestamp()
                <= result.arrival_at.timestamp()
            &&& ride_results(result.sections).len() == route.rides().len()
            &&& route.rides().len() >= 1
        }),
{
    lemma_rides_at_the_ends(timetable, route);
    lemma_rides_are_handed_out(timetable, route.sections);
    assert(route.section_results(timetable) == results_of(timetable, route.sections));
    let some_ride = choose|i: int|
        0 <= i < route.sections.len() && (#[trigger] route.sections[i]).is_ride();
    route.sections.lemma_filter_contains(|section: RouteSection| section.is_ride(), some_ride);
    let last = route.sections.len() - 1;
    assert(route.sections[0].fits(timetable));
    assert(route.sections[last].fits(timetable));
    let ride = choose|i: int| 0 <= i < route.sections.len() && (#[trigger] route.sections[i]).is_ride();
    assert(route.sections[0].is_ride() || route.sections.len() >= 2);
    let first_ride: int = if route.sections[0].is_ride() {
        0
    } else {
        1
    };
    if !route.sections[0].is_ride() {
        assert(route.rides_at(0));
    }
    assert(route.sections[first_ride].fits(timetable));
    lemma_ride_result_has_instants(timetable, route.sections[first_ride]);
    lemma_ride_times(timetable, route.sections[first_ride]);
    assert(route.sections[last].arrival_at.wf());
    if timetable.is_chronological() {
        assert(route.advances_at(timetable, first_ride));
        lemma_arrivals_are_ordered(timetable, route, first_ride, last);
        if first_ride == 1 {
            assert(route.keeps_time(timetable));
            assert(0 < route.sections.len() - 1);
            assert(route.changes_in_time_at(timetable, 0));
            assert(route.boards_in_time_at(timetable, 0));
            assert(route.advances_at(timetable, 0));
        }
    }
    let result = route.to_route_result_spec(timetable);
    let results = route.section_results(timetable);
    assert(result.sections == results);
    assert(results[first_ride].departure_at == Some(
        route.sections[first_ride].departure_at(timetable),
    ));
    assert(result.departure_at == route.sections[first_ride].departure_at(timetable));
    assert(result.arrival_at == route.sections[last].arrival_at);
    assert(results[0].departure_stop_id == route.sections[0].departure_stop_id);
    assert(results[last].arrival_stop_id == route.sections[last].arrival_stop_id);
}

/// Every one of the routes has `count` rides at most.
pub open spec fn all_ride_at_most(routes: Seq<RouteView>, count: int) -> bool {
    forall|i: int| 0 <= i < routes.len() ==> (#[trigger] routes[i]).rides().len() <= count
}

/// Every route of the map has `count` rides at most.
pub open spec fn solutions_ride_at_most(solutions: Map<i32, RouteView>, count: int) -> bool {
    forall|stop_id: i32| #[trigger]
        solutions.contains_key(stop_id) ==> solutions[stop_id].rides().len() <= count
}

/// Sections with one more have one more ride where that one is a ride, and as
/// many where it is a walk.
pub proof fn lemma_rides_with_one_more(sections: Seq<RouteSection>, section: RouteSection)
    ensures
        sections.push(section).filter(|section: RouteSection| section.is_ride()).len()
            == sections.filter(|section: RouteSection| section.is_ride()).len() + if section.is_ride() {
            1int
        } else {
            0int
        },
{
    sections.lemma_filter_push(section, |section: RouteSection| section.is_ride());
}

/// Sections have as many rides where the last is replaced by a section of the
/// same kind.
pub proof fn lemma_rides_with_another_last(sections: Seq<RouteSection>, section: RouteSection)
    requires
        sections.len() > 0,
        section.is_ride() == sections.last().is_ride(),
    ensures
        sections.update(sections.len() - 1, section).filter(
            |section: RouteSection| section.is_ride(),
        ).len() == sections.filter(|section: RouteSection| section.is_ride()).len(),
{
    assert(sections == sections.drop_last().push(sections.last()));
    assert(sections.update(sections.len() - 1, section) == sections.drop_last().push(section));
    lemma_rides_with_one_more(sections.drop_last(), sections.last());
    lemma_rides_with_one_more(sections.drop_last(), section);
}

/// A route that is extended has one ride more, or as many where its last
/// ride is carried on.
pub proof fn lemma_extend_rides(
    timetable: Timetable,
    route: RouteView,
    journey_id: i32,
    date: Date,
    is_departure_date: bool,
)
    requires
        route.sections.len() > 0,
        extend_spec(timetable, route, journey_id, date, is_departure_date).is_some(),
    ensures
        extend_spec(timetable, route, journey_id, date, is_departure_date).unwrap().rides().len()
            == route.rides().len() + if route.last_section().journey_id == Some(journey_id) {
            0int
        } else {
            1int
        },
{
    let new = extend_spec(timetable, route, journey_id, date, is_departure_date).unwrap();
    let last = route.sections.len() - 1;
    if route.last_section().journey_id == Some(journey_id) {
        lemma_rides_with_another_last(route.sections, new.sections[last]);
        assert(new.sections == route.sections.update(last, new.sections[last]));
    } else {
        lemma_rides_with_one_more(route.sections, new.sections[last + 1]);
        assert(new.sections == route.sections.push(new.sections[last + 1]));
    }
}

/// A route whose last ride is ended at a stop on its way has as many rides.
pub proof fn lemma_update_arrival_stop_rides(
    timetable: Timetable,
    route: RouteView,
    arrival_stop_id: i32,
)
    requires
        route.sections.len() > 0,
        update_arrival_stop_spec(timetable, route, arrival_stop_id).is_some(),
    ensures
        update_arrival_stop_spec(timetable, route, arrival_stop_id).unwrap().rides().len()
            == route.rides().len(),
{
    let new = update_arrival_stop_spec(timetable, route, arrival_stop_id).unwrap();
    let last = route.sections.len() - 1;
    lemma_rides_with_another_last(route.sections, new.sections[last]);
    assert(new.sections == route.sections.update(last, new.sections[last]));
}

/// A route that is carried on by a walk has as many rides.
pub proof fn lemma_walk_rides(route: RouteView, connection: StopConnection)
    ensures
        walk_by(route, connection).rides().len() == route.rides().len(),
{
    let new = walk_by(route, connection);
    lemma_rides_with_one_more(route.sections, new.sections[route.sections.len() as int]);
    assert(new.sections == route.sections.push(new.sections[route.sections.len() as int]));
}

/// Routes with so many rides at most are so still with one more such route
/// put in its place among them.
pub proof fn lemma_sorted_insert_rides(routes: Seq<RouteView>, route: RouteView, count: int)
    requires
        all_ride_at_most(routes, count),
        route.rides().len() <= count,
    ensures
        all_ride_at_most(sorted_insert_spec(routes, route), count),
{
    lemma_sorted_insert_keeps(routes, route);
    let result = sorted_insert_spec(routes, route);
    assert forall|i: int| 0 <= i < result.len() implies (#[trigger] result[i]).rides().len()
        <= count by {
        if result[i] != route {
            assert(routes.contains(result[i]));
            let k = choose|k: int| 0 <= k < routes.len() && routes[k] == result[i];
            assert(routes[k].rides().len() <= count);
        }
    }
}

/// Routes with so many rides at most are so still in the order of their
/// arrival.
pub proof fn lemma_sort_rides(routes: Seq<RouteView>, count: int)
    requires
        all_ride_at_most(routes, count),
    ensures
        all_ride_at_most(sort_spec(routes), count),
    decreases routes.len(),
{
    if routes.len() > 0 {
        assert forall|i: int| 0 <= i < routes.drop_last().len() implies (
        #[trigger] routes.drop_last()[i]).rides().len() <= count by {
            assert(routes.drop_last()[i] == routes[i]);
        }
        lemma_sort_rides(routes.drop_last(), count);
        assert(routes.last().rides().len() <= count);
        lemma_sorted_insert_rides(sort_spec(routes.drop_last()), routes.last(), count);
    }
}

/// Of the sections of a route that is handed out, the rides.
pub open spec fn ride_results(sections: Seq<RouteSectionResult>) -> Seq<RouteSectionResult> {
    sections.filter(|section: RouteSectionResult| section.journey_id.is_some())
}

/// The sections as they are handed out.
pub open spec fn results_of(timetable: Timetable, sections: Seq<RouteSection>) -> Seq<
    RouteSectionResult,
> {
    sections.map_values(|section: RouteSection| section.to_route_section_result_spec(timetable))
}

/// Sections are handed out with as many rides as they have.
pub proof fn lemma_rides_are_handed_out(timetable: Timetable, sections: Seq<RouteSection>)
    ensures
        ride_results(results_of(timetable, sections)).len() == sections.filter(
            |section: RouteSection| section.is_ride(),
        ).len(),
    decreases sections.len(),
{
    if sections.len() == 0 {
        assert(results_of(timetable, sections) =~= Seq::empty());
        Seq::<RouteSectionResult>::empty().lemma_filter_len(
            |section: RouteSectionResult| section.journey_id.is_some(),
        );
        sections.lemma_filter_len(|section: RouteSection| section.is_ride());
    } else {
        let before = sections.drop_last();
        let last = sections.last();
        lemma_rides_are_handed_out(timetable, before);
        assert(sections == before.push(last));
        assert(results_of(timetable, sections) =~= results_of(timetable, before).push(
            last.to_route_section_result_spec(timetable),
        ));
        before.lemma_filter_push(last, |section: RouteSection| section.is_ride());
        results_of(timetable, before).lemma_filter_push(
            last.to_route_section_result_spec(timetable),
            |section: RouteSectionResult| section.journey_id.is_some(),
        );
    }
}

} // verus!
