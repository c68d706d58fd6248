//! The search as a whole: the routes that it begins with, the rounds that it
//! makes, and the routes that it returns.
use crate::collections::{map_get, map_insert, map_keys, set_insert};
use crate::routing::connections::{
    all_fit, all_routes_fit, boarding_fits, lemma_departure_exists, next_departures,
    next_departures_spec,
};
use crate::routing::constants::MAXIMUM_NUMBER_OF_EXPLORABLE_CONNECTIONS;
use crate::routing::utils::lemma_sorted_insert_keeps;
use crate::routing::exploration::lemma_sort_fits;
use crate::routing::exploration::{
    arrivals_wf, explore_routes, explored, ignore_last_journeys, last_journeys, lemma_fit_routes_are_wf,
    Exploration,
};
use crate::routing::models::{
    Route, RouteResult, RouteSection, RouteView, RoutingAlgorithmArgs,
};
use crate::routing::query::{
    all_answer, all_begin, all_ride_at_most, all_solve, lemma_first_routes_answer,
    lemma_sort_answers, lemma_sort_rides, solutions_ride_at_most, Query,
};
use crate::routing::route_impl::{
    find_next_spec, lemma_arrival_position_of_call, lemma_found_section, lemma_next_halt,
    lemma_ride_advances, lemma_ride_times, next_halt, RouteResultView,
};
use crate::routing::solutions::{solution_views, solutions_fit, solutions_meet};
use crate::routing::utils::{
    get_stop_connections, sort_routes, sort_spec, stop_connections_spec, views,
};
use crate::timetable::{lemma_first_position, StopConnection, Timetable};
use crate::utils::{add_minutes_to_date_time, DateTime};
use rustc_hash::{FxHashMap, FxHashSet};
use vstd::prelude::*;

verus! {

/// The route that begins with the ride: from the stop to the next stop at
/// which a ride can end.
pub open spec fn initial_ride(timetable: Timetable, stop_id: i32, boarding: (i32, DateTime))
    -> Option<RouteView> {
    match find_next_spec(timetable, timetable.journey(boarding.0), stop_id, boarding.1.date, true) {
        Some((section, visited)) => Some(
            RouteView { sections: seq![section], visited_stops: visited.insert(stop_id) },
        ),
        None => None,
    }
}

/// The routes that begin with one of the rides, in their order.
pub open spec fn initial_rides(timetable: Timetable, stop_id: i32, boardings: Seq<(i32, DateTime)>)
    -> Seq<RouteView>
    decreases boardings.len(),
{
    if boardings.len() == 0 {
        Seq::empty()
    } else {
        let before = initial_rides(timetable, stop_id, boardings.drop_last());
        match initial_ride(timetable, stop_id, boardings.last()) {
            Some(route) => before.push(route),
            None => before,
        }
    }
}

/// The route that is the walk `connection`, begun at `departure_at`.
pub open spec fn initial_walk(departure_at: DateTime, connection: StopConnection) -> RouteView {
    RouteView {
        sections: seq![
            RouteSection {
                journey_id: None,
                departure_stop_id: connection.stop_id_1,
                arrival_stop_id: connection.stop_id_2,
                arrival_at: DateTime::of_timestamp(
                    departure_at.timestamp() + 60 * connection.duration,
                ),
                duration: Some(connection.duration),
            },
        ],
        visited_stops: Set::empty().insert(connection.stop_id_1).insert(connection.stop_id_2),
    }
}

/// The routes that are one of the walks each, in their order.
pub open spec fn initial_walks(departure_at: DateTime, connections: Seq<StopConnection>) -> Seq<
    RouteView,
>
    decreases connections.len(),
{
    if connections.len() == 0 {
        Seq::empty()
    } else {
        initial_walks(departure_at, connections.drop_last()).push(
            initial_walk(departure_at, connections.last()),
        )
    }
}

/// The routes that a search begins with: one for each ride that can be
/// boarded at the stop from `departure_at` on, and one for each walk that
/// leaves the stop; in the order of their arrival.
pub open spec fn create_initial_routes_spec(
    timetable: Timetable,
    departure_stop_id: i32,
    departure_at: DateTime,
) -> Seq<RouteView> {
    sort_spec(
        initial_rides(
            timetable,
            departure_stop_id,
            next_departures_spec(timetable, departure_stop_id, departure_at, Set::empty(), None),
        ) + initial_walks(departure_at, stop_connections_spec(timetable, departure_stop_id)),
    )
}

/// A route that begins with a ride that the timetable offers fits the
/// timetable.
pub proof fn lemma_initial_ride_fits(timetable: Timetable, stop_id: i32, boarding: (i32, DateTime))
    requires
        timetable.wf(),
        boarding_fits(timetable, stop_id, boarding),
        initial_ride(timetable, stop_id, boarding).is_some(),
    ensures
        initial_ride(timetable, stop_id, boarding).unwrap().fits(timetable),
        initial_ride(timetable, stop_id, boarding).unwrap().sections.len() == 1,
        initial_ride(timetable, stop_id, boarding).unwrap().sections[0].departure_stop_id
            == stop_id,
        initial_ride(timetable, stop_id, boarding).unwrap().sets_out_at(timetable)
            == boarding.1.timestamp(),
{
    let journey = timetable.journey(boarding.0);
    let route = initial_ride(timetable, stop_id, boarding).unwrap();
    lemma_departure_exists(journey, stop_id);
    lemma_first_position(journey.stop_ids(), stop_id, 0);
    let from = journey.departure_position(stop_id);
    let to = next_halt(timetable, journey, from + 1);
    lemma_next_halt(timetable, journey, from + 1);
    lemma_arrival_position_of_call(journey, to);
    let section = route.sections[0];
    assert(section.arrival_stop_id == journey.route@[to].stop_id);
    assert(journey.route@[to].wf());
    assert(section.fits(timetable));
    assert(route.is_continuous());
    assert(route.alternates());
    assert(route.has_visited_its_stops(timetable)) by {
        assert forall|i: int, id: i32|
            0 <= i < route.sections.len() && #[trigger] route.passes(
                timetable,
                i,
                id,
            ) implies route.visited_stops.contains(id) by {
            assert(route.sections[i] == section);
        }
    }
    assert(route.keeps_time(timetable));
    lemma_ride_times(timetable, section);
    lemma_found_section(timetable, boarding.0, stop_id, boarding.1.date, true);
    if timetable.is_chronological() {
        lemma_ride_advances(timetable, section);
        assert forall|i: int| 0 <= i < route.sections.len() implies #[trigger] route.advances_at(
            timetable,
            i,
        ) by {
            assert(route.sections[i] == section);
        }
    }
}

/// A route that is a walk from a stop, begun on a day of the timetable, fits
/// the timetable.
pub proof fn lemma_initial_walk_fits(
    timetable: Timetable,
    departure_at: DateTime,
    connection: StopConnection,
)
    requires
        timetable.wf(),
        departure_at.wf(),
        timetable.covers(departure_at.date),
        timetable.stop_connections@.contains(connection),
    ensures
        initial_walk(departure_at, connection).fits(timetable),
        initial_walk(departure_at, connection).sections.len() == 1,
        initial_walk(departure_at, connection).sections[0].departure_stop_id
            == connection.stop_id_1,
        initial_walk(departure_at, connection).sets_out_at(timetable) == departure_at.timestamp(),
{
    let route = initial_walk(departure_at, connection);
    let section = route.sections[0];
    let arrival = departure_at.timestamp() + 60 * connection.duration;
    assert(section.arrival_at == DateTime::of_timestamp(arrival));
    assert(section.arrival_at.wf());
    assert(section.arrival_at.timestamp() == arrival);
    assert(section.fits(timetable));
    assert(route.is_continuous());
    assert(route.alternates());
    assert(route.has_visited_its_stops(timetable)) by {
        assert forall|i: int, id: i32|
            0 <= i < route.sections.len() && #[trigger] route.passes(
                timetable,
                i,
                id,
            ) implies route.visited_stops.contains(id) by {
            assert(route.sections[i] == section);
        }
    }
    assert(route.keeps_time(timetable));
    if timetable.is_chronological() {
        let place = choose|place: int|
            0 <= place < timetable.stop_connections@.len() && timetable.stop_connections@[place]
                == connection;
        assert(timetable.stop_connections@[place].duration >= 0);
        assert forall|i: int| 0 <= i < route.sections.len() implies #[trigger] route.advances_at(
            timetable,
            i,
        ) by {
            assert(route.sections[i] == section);
        }
    }
}

/// The routes that begin with one of the rides.
fn create_initial_rides(timetable: &Timetable, stop_id: i32, boardings: &Vec<(i32, DateTime)>) -> (routes:
    Vec<Route>)
    requires
        timetable.wf(),
        all_fit(*timetable, stop_id, boardings@),
    ensures
        views(routes@) == initial_rides(*timetable, stop_id, boardings@),
        all_routes_fit(*timetable, views(routes@)),
        forall|departure_at: int| #![trigger all_begin(*timetable, views(routes@), stop_id, departure_at)]
            (forall|i: int|
                0 <= i < boardings@.len() ==> departure_at <= (
                #[trigger] boardings@[i]).1.timestamp()) ==> all_begin(
                *timetable,
                views(routes@),
                stop_id,
                departure_at,
            ),
{
    let mut routes: Vec<Route> = Vec::new();
    let mut at: usize = 0;
    assert(views(routes@) =~= Seq::empty());
    while at < boardings.len()
        invariant
            at <= boardings@.len(),
            timetable.wf(),
            all_fit(*timetable, stop_id, boardings@),
            views(routes@) == initial_rides(*timetable, stop_id, boardings@.take(at as int)),
            all_routes_fit(*timetable, views(routes@)),
            forall|departure_at: int| #![trigger all_begin(*timetable, views(routes@), stop_id, departure_at)]
                (forall|i: int|
                    0 <= i < boardings@.len() ==> departure_at <= (
                    #[trigger] boardings@[i]).1.timestamp()) ==> all_begin(
                    *timetable,
                    views(routes@),
                    stop_id,
                    departure_at,
                ),
        decreases boardings@.len() - at,
    {
        let boarding = boardings[at];
        proof {
            assert(boardings@.take(at + 1).drop_last() == boardings@.take(at as int));
            assert(boardings@.take(at + 1).last() == boarding);
            assert(boarding_fits(*timetable, stop_id, boardings@[at as int]));
        }
        let journey = timetable.find_journey(boarding.0).unwrap();
        match RouteSection::find_next(timetable, journey, stop_id, boarding.1.date(), true) {
            Some((section, visited)) => {
                let mut visited = visited;
                set_insert(&mut visited, stop_id);
                let mut sections: Vec<RouteSection> = Vec::new();
                sections.push(section);
                let route = Route::new(sections, visited);
                proof {
                    assert(route@.sections =~= seq![section]);
                    assert(Some(route@) == initial_ride(*timetable, stop_id, boarding));
                    lemma_initial_ride_fits(*timetable, stop_id, boarding);
                    let before = views(routes@);
                    assert(views(routes@.push(route)) =~= before.push(route@));
                    assert forall|departure_at: int| #![trigger all_begin(*timetable, before.push(route@), stop_id, departure_at)]
                        (forall|i: int|
                            0 <= i < boardings@.len() ==> departure_at <= (
                            #[trigger] boardings@[i]).1.timestamp()) implies all_begin(
                        *timetable,
                        before.push(route@),
                        stop_id,
                        departure_at,
                    ) by {
                        assert(all_begin(*timetable, before, stop_id, departure_at));
                        assert(departure_at <= boardings@[at as int].1.timestamp());
                        assert forall|i: int| 0 <= i < before.push(route@).len() implies (
                        #[trigger] before.push(route@)[i]).sections.len() == 1 && before.push(
                            route@,
                        )[i].sections[0].departure_stop_id == stop_id && departure_at
                            <= before.push(route@)[i].sets_out_at(*timetable) by {
                            if i < before.len() {
                                assert(before.push(route@)[i] == before[i]);
                            }
                        }
                    }
                }
                routes.push(route);
            },
            None => {},
        }
        at += 1;
    }
    assert(boardings@.take(at as int) == boardings@);
    routes
}

/// Adds to the routes the routes that are one of the walks each.
fn add_initial_walks(
    timetable: &Timetable,
    stop_id: i32,
    departure_at: DateTime,
    connections: &Vec<StopConnection>,
    routes: &mut Vec<Route>,
)
    requires
        timetable.wf(),
        departure_at.wf(),
        timetable.covers(departure_at.date),
        all_routes_fit(*timetable, views(old(routes)@)),
        forall|i: int|
            0 <= i < connections@.len() ==> (#[trigger] connections@[i]).stop_id_1 == stop_id
                && timetable.stop_connections@.contains(connections@[i]),
        all_begin(*timetable, views(old(routes)@), stop_id, departure_at.timestamp()),
    ensures
        views(final(routes)@) == views(old(routes)@) + initial_walks(departure_at, connections@),
        all_routes_fit(*timetable, views(final(routes)@)),
        all_begin(*timetable, views(final(routes)@), stop_id, departure_at.timestamp()),
{
    let ghost rides = views(routes@);
    let mut at: usize = 0;
    assert(views(routes@) =~= rides + initial_walks(departure_at, connections@.take(0)));
    while at < connections.len()
        invariant
            at <= connections@.len(),
            timetable.wf(),
            departure_at.wf(),
            timetable.covers(departure_at.date),
            views(routes@) == rides + initial_walks(departure_at, connections@.take(at as int)),
            all_routes_fit(*timetable, views(routes@)),
            forall|i: int|
                0 <= i < connections@.len() ==> (#[trigger] connections@[i]).stop_id_1 == stop_id
                    && timetable.stop_connections@.contains(connections@[i]),
            all_begin(*timetable, views(routes@), stop_id, departure_at.timestamp()),
        decreases connections@.len() - at,
    {
        let connection = connections[at];
        proof {
            assert(connections@.take(at + 1).drop_last() == connections@.take(at as int));
            assert(connections@.take(at + 1).last() == connection);
        }
        let mut visited: FxHashSet<i32> = FxHashSet::default();
        set_insert(&mut visited, connection.stop_id_1);
        set_insert(&mut visited, connection.stop_id_2);
        let mut sections: Vec<RouteSection> = Vec::new();
        sections.push(
            RouteSection::new(
                None,
                connection.stop_id_1,
                connection.stop_id_2,
                add_minutes_to_date_time(departure_at, connection.duration as i64),
                Some(connection.duration),
            ),
        );
        let route = Route::new(sections, visited);
        proof {
            assert(route@.sections =~= initial_walk(departure_at, connection).sections);
            assert(route@.visited_stops =~= initial_walk(departure_at, connection).visited_stops);
            assert(route@ == initial_walk(departure_at, connection));
            assert(connections@[at as int] == connection);
            lemma_initial_walk_fits(*timetable, departure_at, connection);
            let before = views(routes@);
            assert(views(routes@.push(route)) =~= before.push(route@));
            assert forall|i: int| 0 <= i < before.push(route@).len() implies (
            #[trigger] before.push(route@)[i]).sections.len() == 1 && before.push(
                route@,
            )[i].sections[0].departure_stop_id == stop_id && departure_at.timestamp()
                <= before.push(route@)[i].sets_out_at(*timetable) by {
                if i < before.len() {
                    assert(before.push(route@)[i] == before[i]);
                }
            }
            assert(before.push(route@) =~= rides + initial_walks(
                departure_at,
                connections@.take(at + 1),
            ));
        }
        routes.push(route);
        at += 1;
    }
    assert(connections@.take(at as int) == connections@);
}

/// The routes that a search begins with: one for each ride that can be
/// boarded at the stop from `departure_at` on, and one for each walk that
/// leaves the stop; in the order of their arrival.
pub fn create_initial_routes(timetable: &Timetable, departure_stop_id: i32, departure_at: DateTime) -> (routes:
    Vec<Route>)
    requires
        timetable.wf(),
        departure_at.wf(),
        timetable.covers(departure_at.date),
    ensures
        views(routes@) == create_initial_routes_spec(*timetable, departure_stop_id, departure_at),
        all_routes_fit(*timetable, views(routes@)),
        forall|query: Query| #![trigger all_answer(*timetable, views(routes@), query)]
            query.departure_stop_id == departure_stop_id && query.departure_at
                == departure_at.timestamp() ==> all_answer(*timetable, views(routes@), query),
        all_ride_at_most(views(routes@), 1),
{
    let boardings = next_departures(timetable, departure_stop_id, departure_at, None, None);
    let mut routes = create_initial_rides(timetable, departure_stop_id, &boardings);
    assert(all_begin(*timetable, views(routes@), departure_stop_id, departure_at.timestamp()));
    match get_stop_connections(timetable, departure_stop_id) {
        Some(connections) => {
            add_initial_walks(timetable, departure_stop_id, departure_at, &connections, &mut routes);
        },
        None => {
            assert(stop_connections_spec(*timetable, departure_stop_id) =~= Seq::empty());
            assert(views(routes@) + initial_walks(
                departure_at,
                stop_connections_spec(*timetable, departure_stop_id),
            ) =~= views(routes@));
        },
    }
    let ghost unsorted = views(routes@);
    proof {
        lemma_fit_routes_are_wf(*timetable, views(routes@));
        lemma_sort_fits(*timetable, views(routes@));
    }
    sort_routes(&mut routes);
    proof {
        assert forall|i: int| 0 <= i < unsorted.len() implies (#[trigger] unsorted[i]).rides().len()
            <= 1 by {
            assert(unsorted[i].sections.len() == 1);
            unsorted[i].sections.lemma_filter_len(
                |section: RouteSection| section.is_ride(),
            );
        }
        lemma_sort_rides(unsorted, 1);
        assert forall|query: Query| #![trigger all_answer(*timetable, views(routes@), query)]
            query.departure_stop_id == departure_stop_id && query.departure_at
                == departure_at.timestamp() implies all_answer(
            *timetable,
            views(routes@),
            query,
        ) by {
            lemma_first_routes_answer(*timetable, unsorted, query);
            lemma_sort_answers(*timetable, unsorted, query);
        }
    }
    routes
}

/// What a search holds between two rounds.
pub struct Round {
    /// The routes of the round to come, in the order of their arrival.
    pub routes: Seq<RouteView>,
    /// The journeys that no route boards any more.
    pub journeys_to_ignore: Set<i32>,
    /// The earliest arrival known at each stop.
    pub earliest_arrivals: Map<i32, DateTime>,
    /// The best route known to each stop of interest.
    pub solutions: Map<i32, RouteView>,
}

/// The routes known after `rounds_left` rounds more, or as many as it takes
/// until a round finds no route.
pub open spec fn routing_rounds(
    timetable: Timetable,
    args: RoutingAlgorithmArgs,
    round: Round,
    rounds_left: nat,
) -> Map<i32, RouteView>
    decreases rounds_left,
{
    if rounds_left == 0 {
        round.solutions
    } else {
        let outcome = explored(
            timetable,
            args,
            round.journeys_to_ignore,
            Exploration {
                frontier: round.routes,
                found: Seq::empty(),
                earliest_arrivals: round.earliest_arrivals,
                solutions: round.solutions,
            },
        );
        if outcome.found.len() == 0 {
            outcome.solutions
        } else {
            routing_rounds(
                timetable,
                args,
                Round {
                    routes: sort_spec(outcome.found),
                    journeys_to_ignore: round.journeys_to_ignore.union(
                        last_journeys(outcome.found),
                    ),
                    earliest_arrivals: outcome.earliest_arrivals,
                    solutions: outcome.solutions,
                },
                (rounds_left - 1) as nat,
            )
        }
    }
}

/// The best route that the search finds to each stop of interest.
pub open spec fn compute_routing_spec(
    timetable: Timetable,
    departure_stop_id: i32,
    departure_at: DateTime,
    args: RoutingAlgorithmArgs,
) -> Map<i32, RouteView> {
    let routes = create_initial_routes_spec(timetable, departure_stop_id, departure_at);
    routing_rounds(
        timetable,
        args,
        Round {
            routes,
            journeys_to_ignore: last_journeys(routes),
            earliest_arrivals: Map::empty(),
            solutions: Map::empty(),
        },
        MAXIMUM_NUMBER_OF_EXPLORABLE_CONNECTIONS as nat,
    )
}

/// What each of the routes of a map holds.
pub open spec fn result_views(results: Map<i32, RouteResult>) -> Map<i32, RouteResultView> {
    results.map_values(|route: RouteResult| route@)
}

/// The routes as they are handed out.
pub open spec fn to_results(timetable: Timetable, solutions: Map<i32, RouteView>) -> Map<
    i32,
    RouteResultView,
> {
    solutions.map_values(|route: RouteView| route.to_route_result_spec(timetable))
}

/// The rounds of a search from the routes that it begins with.
fn compute_solutions(
    timetable: &Timetable,
    routes: Vec<Route>,
    args: &RoutingAlgorithmArgs,
) -> (solutions: FxHashMap<i32, Route>)
    requires
        timetable.wf(),
        args.wf(),
        all_routes_fit(*timetable, views(routes@)),
    ensures
        solution_views(solutions@) == routing_rounds(
            *timetable,
            *args,
            Round {
                routes: views(routes@),
                journeys_to_ignore: last_journeys(views(routes@)),
                earliest_arrivals: Map::empty(),
                solutions: Map::empty(),
            },
            MAXIMUM_NUMBER_OF_EXPLORABLE_CONNECTIONS as nat,
        ),
        solutions_fit(*timetable, solution_views(solutions@)),
        solutions_meet(*args, solution_views(solutions@)),
        forall|query: Query| #![trigger all_solve(*timetable, solution_views(solutions@), query)]
            query.arrival_stop_id == args.target() && all_answer(
                *timetable,
                views(routes@),
                query,
            ) ==> all_solve(*timetable, solution_views(solutions@), query),
        all_ride_at_most(views(routes@), 1) ==> solutions_ride_at_most(
            solution_views(solutions@),
            MAXIMUM_NUMBER_OF_EXPLORABLE_CONNECTIONS as int,
        ),
{
    let ghost given = views(routes@);
    let mut routes = routes;
    let mut journeys_to_ignore: FxHashSet<i32> = FxHashSet::default();
    let mut earliest_arrival_by_stop_id: FxHashMap<i32, DateTime> = FxHashMap::default();
    let mut solutions: FxHashMap<i32, Route> = FxHashMap::default();
    proof {
        lemma_fit_routes_are_wf(*timetable, views(routes@));
    }
    ignore_last_journeys(&routes, &mut journeys_to_ignore);
    let ghost wanted = routing_rounds(
        *timetable,
        *args,
        Round {
            routes: views(routes@),
            journeys_to_ignore: last_journeys(views(routes@)),
            earliest_arrivals: Map::empty(),
            solutions: Map::empty(),
        },
        MAXIMUM_NUMBER_OF_EXPLORABLE_CONNECTIONS as nat,
    );
    proof {
        assert(journeys_to_ignore@ =~= last_journeys(views(routes@)));
        assert(earliest_arrival_by_stop_id@ =~= Map::empty());
        assert(solution_views(solutions@) =~= Map::empty());
    }
    let mut round: usize = 0;
    let mut done: bool = false;
    while round < MAXIMUM_NUMBER_OF_EXPLORABLE_CONNECTIONS && !done
        invariant
            round <= MAXIMUM_NUMBER_OF_EXPLORABLE_CONNECTIONS,
            timetable.wf(),
            args.wf(),
            all_routes_fit(*timetable, views(routes@)),
            arrivals_wf(earliest_arrival_by_stop_id@),
            solutions_fit(*timetable, solution_views(solutions@)),
            solutions_meet(*args, solution_views(solutions@)),
            forall|query: Query| #![trigger all_answer(*timetable, views(routes@), query)]
                query.arrival_stop_id == args.target() && all_answer(*timetable, given, query)
                    ==> all_answer(*timetable, views(routes@), query),
            forall|query: Query| #![trigger all_solve(*timetable, solution_views(solutions@), query)]
                query.arrival_stop_id == args.target() && all_answer(*timetable, given, query)
                    ==> all_solve(*timetable, solution_views(solutions@), query),
            all_ride_at_most(given, 1) ==> all_ride_at_most(views(routes@), round + 1),
            all_ride_at_most(given, 1) ==> solutions_ride_at_most(
                solution_views(solutions@),
                round as int,
            ),
            wanted == if done {
                solution_views(solutions@)
            } else {
                routing_rounds(
                    *timetable,
                    *args,
                    Round {
                        routes: views(routes@),
                        journeys_to_ignore: journeys_to_ignore@,
                        earliest_arrivals: earliest_arrival_by_stop_id@,
                        solutions: solution_views(solutions@),
                    },
                    (MAXIMUM_NUMBER_OF_EXPLORABLE_CONNECTIONS - round) as nat,
                )
            },
        decreases MAXIMUM_NUMBER_OF_EXPLORABLE_CONNECTIONS - round,
    {
        let mut current: Vec<Route> = Vec::new();
        let ghost so_far = solution_views(solutions@);
        let ghost taken = views(routes@);
        std::mem::swap(&mut current, &mut routes);
        let ghost outcome = explored(
            *timetable,
            *args,
            journeys_to_ignore@,
            Exploration {
                frontier: views(current@),
                found: Seq::empty(),
                earliest_arrivals: earliest_arrival_by_stop_id@,
                solutions: solution_views(solutions@),
            },
        );
        let new_routes = explore_routes(
            timetable,
            current,
            &mut journeys_to_ignore,
            &mut earliest_arrival_by_stop_id,
            &mut solutions,
            args,
        );
        proof {
            lemma_sort_len(outcome.found);
        }
        let ghost found = views(new_routes@);
        if new_routes.len() == 0 {
            done = true;
            assert(views(routes@) =~= Seq::empty());
        } else {
            routes = new_routes;
        }
        proof {
            if all_ride_at_most(given, 1) {
                assert(all_ride_at_most(taken, round + 1));
                assert(solutions_ride_at_most(so_far, round + 1)) by {
                    assert forall|stop_id: i32| #[trigger]
                        so_far.contains_key(stop_id) implies so_far[stop_id].rides().len() <= round
                        + 1 by {
                        assert(so_far[stop_id].rides().len() <= round);
                    }
                }
                assert(all_ride_at_most(found, round + 2));
                assert(solutions_ride_at_most(solution_views(solutions@), round + 1));
                if done {
                    assert(views(routes@).len() == 0);
                } else {
                    assert(views(routes@) == found);
                }
            }
            assert forall|query: Query|
                query.arrival_stop_id == args.target() && all_answer(
                    *timetable,
                    given,
                    query,
                ) implies #[trigger] all_answer(*timetable, views(routes@), query) by {
                assert(all_solve(*timetable, so_far, query));
                assert(all_answer(*timetable, taken, query));
                assert(all_answer(*timetable, found, query));
                if done {
                    assert(views(routes@).len() == 0);
                } else {
                    assert(views(routes@) == found);
                }
            }
            assert forall|query: Query|
                query.arrival_stop_id == args.target() && all_answer(
                    *timetable,
                    given,
                    query,
                ) implies #[trigger] all_solve(*timetable, solution_views(solutions@), query) by {
                assert(all_solve(*timetable, so_far, query));
                assert(all_answer(*timetable, taken, query));
                assert(all_answer(*timetable, found, query));
            }
        }
        round += 1;
    }
    proof {
        if all_ride_at_most(given, 1) {
            assert forall|stop_id: i32| #[trigger]
                solution_views(solutions@).contains_key(stop_id) implies solution_views(
                solutions@,
            )[stop_id].rides().len() <= MAXIMUM_NUMBER_OF_EXPLORABLE_CONNECTIONS by {
                assert(solution_views(solutions@)[stop_id].rides().len() <= round);
            }
        }
    }
    solutions
}

/// Putting routes in order keeps their number.
pub proof fn lemma_sort_len(routes: Seq<RouteView>)
    ensures
        sort_spec(routes).len() == routes.len(),
    decreases routes.len(),
{
    if routes.len() > 0 {
        lemma_sort_len(routes.drop_last());
        lemma_sorted_insert_keeps(
            sort_spec(routes.drop_last()),
            routes.last(),
        );
    }
}

/// The best route from the stop, left at `departure_at` or later, to each
/// stop of interest: to the stop that `args` names, or to every stop that can
/// be reached by the instant that `args` names.
pub fn compute_routing(
    timetable: &Timetable,
    departure_stop_id: i32,
    departure_at: DateTime,
    args: RoutingAlgorithmArgs,
) -> (results: FxHashMap<i32, RouteResult>)
    requires
        timetable.wf(),
        departure_at.wf(),
        timetable.covers(departure_at.date),
        args.wf(),
    ensures
        result_views(results@) == to_results(
            *timetable,
            compute_routing_spec(*timetable, departure_stop_id, departure_at, args),
        ),
        solutions_fit(
            *timetable,
            compute_routing_spec(*timetable, departure_stop_id, departure_at, args),
        ),
        solutions_meet(
            args,
            compute_routing_spec(*timetable, departure_stop_id, departure_at, args),
        ),
        all_solve(
            *timetable,
            compute_routing_spec(*timetable, departure_stop_id, departure_at, args),
            Query {
                departure_stop_id,
                departure_at: departure_at.timestamp(),
                arrival_stop_id: args.target(),
            },
        ),
        solutions_ride_at_most(
            compute_routing_spec(*timetable, departure_stop_id, departure_at, args),
            MAXIMUM_NUMBER_OF_EXPLORABLE_CONNECTIONS as int,
        ),
{
    let routes = create_initial_routes(timetable, departure_stop_id, departure_at);
    let ghost query = Query {
        departure_stop_id,
        departure_at: departure_at.timestamp(),
        arrival_stop_id: args.target(),
    };
    assert(all_answer(*timetable, views(routes@), query));
    let solutions = compute_solutions(timetable, routes, &args);
    assert(all_solve(*timetable, solution_views(solutions@), query));
    let ghost solved = solution_views(solutions@);
    let stops = map_keys(&solutions);
    let mut results: FxHashMap<i32, RouteResult> = FxHashMap::default();
    let mut at: usize = 0;
    while at < stops.len()
        invariant
            at <= stops@.len(),
            timetable.wf(),
            solved == solution_views(solutions@),
            solutions_fit(*timetable, solved),
            forall|key: i32| stops@.contains(key) <==> solutions@.contains_key(key),
            forall|key: i32| #[trigger]
                results@.contains_key(key) <==> stops@.take(at as int).contains(key),
            forall|key: i32| #[trigger]
                results@.contains_key(key) ==> results@[key]@ == solved[key].to_route_result_spec(
                    *timetable,
                ),
        decreases stops@.len() - at,
    {
        let stop_id: i32 = stops[at];
        assert(stops@.contains(stop_id));
        let route = map_get(&solutions, stop_id).unwrap();
        assert(solved.contains_key(stop_id));
        let result = route.to_route_result(timetable);
        let ghost before = results@;
        map_insert(&mut results, stop_id, result);
        proof {
            let shorter = stops@.take(at as int);
            let longer = stops@.take(at + 1);
            assert(longer == shorter.push(stop_id));
            assert forall|key: i32| #[trigger] results@.contains_key(key) <==> longer.contains(
                key,
            ) by {
                if key != stop_id {
                    assert(before.contains_key(key) <==> shorter.contains(key));
                    if shorter.contains(key) {
                        let k = choose|k: int| 0 <= k < shorter.len() && shorter[k] == key;
                        assert(longer[k] == key);
                    }
                    if longer.contains(key) {
                        let k = choose|k: int| 0 <= k < longer.len() && longer[k] == key;
                        assert(shorter[k] == key);
                    }
                } else {
                    assert(longer[at as int] == stop_id);
                }
            }
        }
        at += 1;
    }
    proof {
        assert(stops@.take(at as int) == stops@);
        assert(result_views(results@) =~= to_results(*timetable, solved));
    }
    results
}

} // verus!
