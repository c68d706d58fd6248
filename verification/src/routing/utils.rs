//! Small steps that the search repeats: copying a route with one more step,
//! looking up the walks that leave a stop, and keeping routes in the order of
//! their arrival.
use crate::collections::{map_get, set_extend, set_insert};
use crate::journey::route_hash;
use crate::routing::models::{Route, RouteSection, RouteView};
use crate::timetable::{StopConnection, Timetable};
use crate::utils::DateTime;
use rustc_hash::FxHashSet;
use vstd::prelude::*;

verus! {

/// What each of the routes holds.
pub open spec fn views(routes: Seq<Route>) -> Seq<RouteView> {
    routes.map_values(|route: Route| route@)
}

/// `route` with one more step: its last section now ends where `section`
/// ends, or else `section` follows the others; and it has been at `visited`
/// too.
pub open spec fn clone_update_spec(
    route: RouteView,
    section: RouteSection,
    continues_last_section: bool,
    visited: Set<i32>,
) -> RouteView {
    RouteView {
        sections: if continues_last_section {
            route.sections.update(
                route.sections.len() - 1,
                RouteSection {
                    arrival_stop_id: section.arrival_stop_id,
                    arrival_at: section.arrival_at,
                    ..route.last_section()
                },
            )
        } else {
            route.sections.push(section)
        },
        visited_stops: route.visited_stops.union(visited),
    }
}

/// A copy of `route` with one more step.
pub fn clone_update_route(
    route: &Route,
    new_section: RouteSection,
    continues_last_section: bool,
    new_visited_stops: &FxHashSet<i32>,
) -> (updated: Route)
    requires
        route@.sections.len() > 0,
    ensures
        updated@ == clone_update_spec(
            route@,
            new_section,
            continues_last_section,
            new_visited_stops@,
        ),
{
    let mut updated = route.clone();
    if continues_last_section {
        updated.set_last_arrival(new_section.arrival_stop_id, new_section.arrival_at);
    } else {
        updated.sections.push(new_section);
    }
    set_extend(&mut updated.visited_stops, new_visited_stops);
    updated
}

/// The walks that leave a stop, in the order in which the timetable lists
/// them.
pub open spec fn stop_connections_spec(timetable: Timetable, stop_id: i32) -> Seq<StopConnection> {
    timetable.connections_at(stop_id).map_values(
        |place: usize| timetable.stop_connections@[place as int],
    )
}

/// The walks that leave a stop; `None` where the timetable lists none.
pub fn get_stop_connections(timetable: &Timetable, stop_id: i32) -> (connections: Option<
    Vec<StopConnection>,
>)
    requires
        timetable.wf(),
    ensures
        connections.is_some() == timetable.connections_by_stop@.contains_key(stop_id),
        connections matches Some(list) ==> list@ == stop_connections_spec(*timetable, stop_id),
        connections matches Some(list) ==> forall|i: int|
            0 <= i < list@.len() ==> (#[trigger] list@[i]).stop_id_1 == stop_id
                && timetable.stop_connections@.contains(list@[i]),
{
    match map_get(&timetable.connections_by_stop, stop_id) {
        None => None,
        Some(places) => {
            let mut list: Vec<StopConnection> = Vec::new();
            let mut at: usize = 0;
            while at < places.len()
                invariant
                    at <= places@.len(),
                    timetable.wf(),
                    places@ == timetable.connections_at(stop_id),
                    list@ == stop_connections_spec(*timetable, stop_id).take(at as int),
                decreases places@.len() - at,
            {
                let place: usize = places[at];
                assert(timetable.connections_at(stop_id)[at as int] == place);
                list.push(timetable.stop_connections[place]);
                assert(stop_connections_spec(*timetable, stop_id).take(at + 1)
                    == stop_connections_spec(*timetable, stop_id).take(at as int).push(
                    timetable.stop_connections@[place as int],
                ));
                at += 1;
            }
            assert(stop_connections_spec(*timetable, stop_id).take(at as int)
                == stop_connections_spec(*timetable, stop_id));
            assert forall|i: int| 0 <= i < list@.len() implies (#[trigger] list@[i]).stop_id_1
                == stop_id && timetable.stop_connections@.contains(list@[i]) by {
                let place = timetable.connections_at(stop_id)[i];
                assert(timetable.stop_connections@[place as int] == list@[i]);
            }
            Some(list)
        },
    }
}

/// The fingerprints, from the stop at which `route` has arrived, of the
/// journeys of the first `count` sections.
pub open spec fn routes_to_ignore_upto(timetable: Timetable, route: RouteView, count: int) -> Set<
    u64,
> {
    Set::new(
        |hash: u64|
            exists|k: int|
                0 <= k < count && k < route.sections.len() && (
                #[trigger] route.sections[k]).journey_id.is_some() && route_hash(
                    timetable.journey(route.sections[k].journey_id.unwrap()).stop_ids(),
                    route.arrival_stop_id(),
                ) == Some(hash),
    )
}

/// Each of the journeys of the first `count` sections that calls at the stop
/// at which `route` has arrived has a fingerprint from there.
pub open spec fn ways_are_known(timetable: Timetable, route: RouteView, count: int) -> bool {
    forall|k: int|
        0 <= k < count && k < route.sections.len() && (
        #[trigger] route.sections[k]).journey_id.is_some() && timetable.journey(
            route.sections[k].journey_id.unwrap(),
        ).calls_at(route.arrival_stop_id()) ==> route_hash(
            timetable.journey(route.sections[k].journey_id.unwrap()).stop_ids(),
            route.arrival_stop_id(),
        ).is_some()
}

/// The fingerprints, from the stop at which `route` has arrived, of the
/// journeys that it has taken and that call there.
pub open spec fn routes_to_ignore_spec(timetable: Timetable, route: RouteView) -> Set<u64> {
    routes_to_ignore_upto(timetable, route, route.sections.len() as int)
}

/// The fingerprints, from the stop at which `route` has arrived, of the
/// journeys that it has taken and that call there.
pub fn get_routes_to_ignore(timetable: &Timetable, route: &Route) -> (hashes: FxHashSet<u64>)
    requires
        timetable.wf(),
        route@.sections.len() > 0,
        forall|k: int|
            0 <= k < route@.sections.len() ==> (
            #[trigger] route@.sections[k].journey_id matches Some(id) ==> timetable.has_journey(id)),
    ensures
        hashes@ == routes_to_ignore_spec(*timetable, route@),
        ways_are_known(*timetable, route@, route@.sections.len() as int),
{
    let arrival_stop_id: i32 = route.arrival_stop_id();
    let mut hashes: FxHashSet<u64> = FxHashSet::default();
    let mut at: usize = 0;
    while at < route.sections.len()
        invariant
            at <= route@.sections.len(),
            timetable.wf(),
            arrival_stop_id == route@.arrival_stop_id(),
            forall|k: int|
                0 <= k < route@.sections.len() ==> (
                #[trigger] route@.sections[k].journey_id matches Some(id)
                    ==> timetable.has_journey(id)),
            hashes@ == routes_to_ignore_upto(*timetable, route@, at as int),
            ways_are_known(*timetable, route@, at as int),
        decreases route@.sections.len() - at,
    {
        let section = &route.sections[at];
        let ghost before = hashes@;
        match section.journey(timetable) {
            Some(journey) => {
                match journey.hash_route(arrival_stop_id) {
                    Some(hash) => {
                        set_insert(&mut hashes, hash);
                    },
                    None => {},
                }
            },
            None => {},
        }
        proof {
            let next = routes_to_ignore_upto(*timetable, route@, at + 1);
            assert forall|hash: u64| hashes@.contains(hash) == next.contains(hash) by {
                if next.contains(hash) && !before.contains(hash) {
                    let k = choose|k: int|
                        0 <= k < at + 1 && k < route@.sections.len() && (
                        #[trigger] route@.sections[k]).journey_id.is_some() && route_hash(
                            timetable.journey(route@.sections[k].journey_id.unwrap()).stop_ids(),
                            route@.arrival_stop_id(),
                        ) == Some(hash);
                    assert(k == at);
                }
                if before.contains(hash) {
                    let k = choose|k: int|
                        0 <= k < at && k < route@.sections.len() && (
                        #[trigger] route@.sections[k]).journey_id.is_some() && route_hash(
                            timetable.journey(route@.sections[k].journey_id.unwrap()).stop_ids(),
                            route@.arrival_stop_id(),
                        ) == Some(hash);
                    assert(0 <= k < at + 1);
                }
                if hashes@.contains(hash) && !before.contains(hash) {
                    assert(route@.sections[at as int].journey_id.is_some());
                }
            }
            assert(hashes@ =~= next);
        }
        at += 1;
    }
    hashes
}

/// Index of the first of `routes` that arrives later than `arrival_at`; their
/// number where none does.
pub open spec fn insert_position(routes: Seq<RouteView>, arrival_at: DateTime) -> int
    decreases routes.len(),
{
    if routes.len() == 0 {
        0
    } else if arrival_at.timestamp() < routes[0].arrival_at().timestamp() {
        0
    } else {
        1 + insert_position(routes.drop_first(), arrival_at)
    }
}

pub proof fn lemma_insert_position_in_range(routes: Seq<RouteView>, arrival_at: DateTime)
    ensures
        0 <= insert_position(routes, arrival_at) <= routes.len(),
    decreases routes.len(),
{
    if routes.len() > 0 {
        lemma_insert_position_in_range(routes.drop_first(), arrival_at);
    }
}

/// `routes` with `route` put behind every route that arrives no later.
pub open spec fn sorted_insert_spec(routes: Seq<RouteView>, route: RouteView) -> Seq<RouteView> {
    routes.insert(insert_position(routes, route.arrival_at()), route)
}

/// The routes in the order of their arrival; routes that arrive at the same
/// instant keep their order.
pub open spec fn sort_spec(routes: Seq<RouteView>) -> Seq<RouteView>
    decreases routes.len(),
{
    if routes.len() == 0 {
        Seq::empty()
    } else {
        sorted_insert_spec(sort_spec(routes.drop_last()), routes.last())
    }
}

/// Every one of the routes has a section and arrives at a time of day.
pub open spec fn all_wf(routes: Seq<RouteView>) -> bool {
    forall|i: int| 0 <= i < routes.len() ==> (#[trigger] routes[i]).wf()
}

/// What [`sorted_insert_spec`] returns holds the routes that it was given,
/// and the one that it put among them, and no other.
pub proof fn lemma_sorted_insert_keeps(routes: Seq<RouteView>, route: RouteView)
    ensures
        sorted_insert_spec(routes, route).len() == routes.len() + 1,
        forall|i: int|
            0 <= i < routes.len() + 1 ==> routes.contains(
                #[trigger] sorted_insert_spec(routes, route)[i],
            ) || sorted_insert_spec(routes, route)[i] == route,
        forall|i: int|
            0 <= i < routes.len() ==> sorted_insert_spec(routes, route).contains(
                #[trigger] routes[i],
            ),
        sorted_insert_spec(routes, route).contains(route),
{
    lemma_insert_position_in_range(routes, route.arrival_at());
    let at = insert_position(routes, route.arrival_at());
    let result = sorted_insert_spec(routes, route);
    assert forall|i: int| 0 <= i < routes.len() + 1 implies routes.contains(#[trigger] result[i])
        || result[i] == route by {
        if i < at {
            assert(result[i] == routes[i]);
        } else if i > at {
            assert(result[i] == routes[i - 1]);
        }
    }
    assert forall|i: int| 0 <= i < routes.len() implies result.contains(#[trigger] routes[i]) by {
        if i < at {
            assert(result[i] == routes[i]);
        } else {
            assert(result[i + 1] == routes[i]);
        }
    }
    assert(result[at] == route);
}

/// Puts `route_to_insert` behind every route that arrives no later.
pub fn sorted_insert(routes: &mut Vec<Route>, route_to_insert: Route)
    requires
        all_wf(views(old(routes)@)),
        route_to_insert@.wf(),
    ensures
        views(final(routes)@) == sorted_insert_spec(views(old(routes)@), route_to_insert@),
        all_wf(views(final(routes)@)),
{
    let arrival_at = route_to_insert.arrival_at();
    let ghost all = views(routes@);
    let mut index: usize = 0;
    assert(all.skip(0) == all);
    while index < routes.len() && !arrival_at.is_before(routes[index].arrival_at())
        invariant
            index <= routes@.len(),
            all == views(routes@),
            all_wf(all),
            arrival_at.wf(),
            insert_position(all, arrival_at) == index + insert_position(
                all.skip(index as int),
                arrival_at,
            ),
        decreases routes@.len() - index,
    {
        proof {
            assert(all.skip(index as int)[0] == all[index as int]);
            assert(all.skip(index as int).drop_first() == all.skip(index + 1));
        }
        index += 1;
    }
    proof {
        if index < routes@.len() {
            assert(all.skip(index as int)[0] == all[index as int]);
        }
        assert(insert_position(all, arrival_at) == index);
    }
    let ghost view = route_to_insert@;
    routes.insert(index, route_to_insert);
    proof {
        assert(views(routes@) =~= all.insert(index as int, view));
    }
}

/// Puts the routes in the order of their arrival; routes that arrive at the
/// same instant keep their order.
pub fn sort_routes(routes: &mut Vec<Route>)
    requires
        all_wf(views(old(routes)@)),
    ensures
        views(final(routes)@) == sort_spec(views(old(routes)@)),
        all_wf(views(final(routes)@)),
{
    let ghost unsorted = routes@;
    let ghost mut done: int = 0;
    let mut sorted: Vec<Route> = Vec::new();
    while routes.len() > 0
        invariant
            0 <= done <= unsorted.len(),
            routes@ == unsorted.skip(done),
            all_wf(views(unsorted)),
            all_wf(views(sorted@)),
            views(sorted@) == sort_spec(views(unsorted.take(done))),
        decreases routes@.len(),
    {
        let route = routes.remove(0);
        proof {
            assert(route == unsorted[done]);
            assert(views(unsorted)[done] == route@);
            assert(unsorted.skip(done).remove(0) == unsorted.skip(done + 1));
            assert(views(unsorted.take(done + 1)).drop_last() == views(unsorted.take(done)));
            assert(views(unsorted.take(done + 1)).last() == route@);
        }
        sorted_insert(&mut sorted, route);
        proof {
            done = done + 1;
        }
    }
    proof {
        assert(unsorted.take(done) == unsorted);
    }
    *routes = sorted;
}

} // verus!
