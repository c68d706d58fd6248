//! The part of an isochrone map that is counted in seconds: which stops
//! count, how long it takes to reach each, and which of them lie within each
//! of the limits of the map.
//!
//! Where a place lies and how far it is from another is for the caller to
//! say: the places are carried along as `hrdf_parser` holds them.
pub mod models;

use crate::routing::models::{RouteResult, RouteSectionResult};
use crate::utils::{Date, DateTime, Time};
use vstd::prelude::*;

verus! {

/// The first two digits of a number, or the number itself where it has fewer.
pub open spec fn leading_digits(number: int) -> int
    decreases number,
{
    if number < 100 {
        number
    } else {
        leading_digits(number / 10)
    }
}

/// Whether the identifier of a stop, written in decimal, begins with `85`:
/// the stops of Switzerland.
pub open spec fn is_swiss_stop_spec(stop_id: i32) -> bool {
    stop_id >= 85 && leading_digits(stop_id as int) == 85
}

/// Whether the identifier of a stop, written in decimal, begins with `85`.
pub fn is_swiss_stop(stop_id: i32) -> (swiss: bool)
    ensures
        swiss == is_swiss_stop_spec(stop_id),
{
    if stop_id < 85 {
        return false;
    }
    let mut number: i32 = stop_id;
    while number >= 100
        invariant
            85 <= stop_id,
            10 <= number,
            leading_digits(number as int) == leading_digits(stop_id as int),
        decreases number,
    {
        number = number / 10;
    }
    number == 85
}

/// The limits of the isochrones of a map, in minutes: the multiples of the
/// interval up to the limit of the map.
pub fn isochrone_time_limits(time_limit: u32, isochrone_interval: u32) -> (limits: Vec<u32>)
    requires
        isochrone_interval > 0,
        time_limit % isochrone_interval == 0,
    ensures
        limits@.len() == time_limit / isochrone_interval,
        forall|i: int| 0 <= i < limits@.len() ==> #[trigger] limits@[i] == (i + 1) * isochrone_interval,
{
    let count: u32 = time_limit / isochrone_interval;
    let mut limits: Vec<u32> = Vec::new();
    let mut index: u32 = 0;
    while index < count
        invariant
            index <= count,
            count == time_limit / isochrone_interval,
            isochrone_interval > 0,
            limits@.len() == index,
            forall|i: int|
                0 <= i < limits@.len() ==> #[trigger] limits@[i] == (i + 1) * isochrone_interval,
        decreases count - index,
    {
        assert((index + 1) * isochrone_interval <= time_limit) by (nonlinear_arith)
            requires
                index + 1 <= count,
                count == time_limit / isochrone_interval,
                isochrone_interval > 0,
        ;
        limits.push((index + 1) * isochrone_interval);
        index += 1;
    }
    limits
}

/// A map whose limit is its interval has one isochrone.
pub proof fn lemma_single_isochrone(time_limit: u32, isochrone_interval: u32)
    requires
        isochrone_interval > 0,
        time_limit == isochrone_interval,
    ensures
        time_limit % isochrone_interval == 0,
        time_limit / isochrone_interval == 1,
{
    assert(time_limit % isochrone_interval == 0 && time_limit / isochrone_interval == 1)
        by (nonlinear_arith)
        requires
            isochrone_interval > 0,
            time_limit == isochrone_interval,
    ;
}

/// The instant at which the journeys begin and the seconds that are left for
/// them, after a walk of `walking_seconds` to the stop where they begin.
pub fn adjust_departure_at(departure_at: DateTime, time_limit: i64, walking_seconds: i64) -> (adjusted:
    (DateTime, i64))
    requires
        departure_at.wf(),
        DateTime::timestamp_fits(departure_at.timestamp() + walking_seconds),
        i64::MIN <= time_limit - walking_seconds <= i64::MAX,
    ensures
        adjusted.0.wf(),
        adjusted.0.timestamp() == departure_at.timestamp() + walking_seconds,
        adjusted.1 == time_limit - walking_seconds,
{
    (departure_at.add_seconds(walking_seconds), time_limit - walking_seconds)
}

/// Every route has a section, and arrives at a time of day.
pub open spec fn routes_are_told(routes: Seq<RouteResult>) -> bool {
    forall|i: int|
        0 <= i < routes.len() ==> (#[trigger] routes[i]).sections@.len() > 0
            && routes[i].arrival_at.wf()
}

/// The stop at which a route arrives.
pub open spec fn arrival_stop_of(route: RouteResult) -> i32 {
    route.sections@[route.sections@.len() - 1].arrival_stop_id
}

/// Of the first `count` routes, those that arrive at a stop of Switzerland.
pub open spec fn swiss_routes(routes: Seq<RouteResult>, count: int) -> Seq<RouteResult>
    decreases count,
{
    if count <= 0 {
        Seq::empty()
    } else if is_swiss_stop_spec(arrival_stop_of(routes[count - 1])) {
        swiss_routes(routes, count - 1).push(routes[count - 1])
    } else {
        swiss_routes(routes, count - 1)
    }
}

/// The routes that arrive at a stop of Switzerland, in their order.
pub fn keep_swiss_routes(routes: Vec<RouteResult>) -> (kept: Vec<RouteResult>)
    requires
        routes_are_told(routes@),
    ensures
        kept@ == swiss_routes(routes@, routes@.len() as int),
        routes_are_told(kept@),
{
    let ghost all = routes@;
    let mut routes = routes;
    let mut kept: Vec<RouteResult> = Vec::new();
    let ghost mut done: int = 0;
    while routes.len() > 0
        invariant
            0 <= done <= all.len(),
            routes@ == all.skip(done),
            routes_are_told(all),
            routes_are_told(kept@),
            kept@ == swiss_routes(all, done),
        decreases routes@.len(),
    {
        let route = routes.remove(0);
        proof {
            assert(route == all[done]);
            assert(all.skip(done).remove(0) == all.skip(done + 1));
            done = done + 1;
        }
        let last: usize = route.sections.len() - 1;
        if is_swiss_stop(route.sections[last].arrival_stop_id) {
            kept.push(route);
        }
    }
    kept
}

/// The first instant of the year 1970, which stands where a route has no
/// instant to state.
pub open spec fn epoch() -> DateTime {
    DateTime { date: Date { days: 719_163 }, time: Time { secs: 0 } }
}

/// The one section of the route that stands for the place from which a map
/// is drawn.
pub open spec fn origin_section(origin_lv95: hrdf_parser::Coordinates) -> RouteSectionResult {
    RouteSectionResult {
        journey_id: None,
        departure_stop_id: 0,
        departure_stop_lv95_coordinates: None,
        departure_stop_wgs84_coordinates: None,
        arrival_stop_id: 0,
        arrival_stop_lv95_coordinates: Some(origin_lv95),
        arrival_stop_wgs84_coordinates: None,
        departure_at: Some(epoch()),
        arrival_at: Some(epoch()),
        duration: Some(0i16),
    }
}

/// The route that stands for the place from which a map is drawn: a walk of
/// no length between no stops that ends there at `departure_at`.
pub fn origin_route(departure_at: DateTime, origin_lv95: hrdf_parser::Coordinates) -> (route:
    RouteResult)
    ensures
        route.departure_at == epoch(),
        route.arrival_at == departure_at,
        route.sections@ == seq![origin_section(origin_lv95)],
{
    let epoch = DateTime { date: Date { days: 719_163 }, time: Time { secs: 0 } };
    let mut sections: Vec<RouteSectionResult> = Vec::new();
    sections.push(
        RouteSectionResult::new(
            None,
            0,
            None,
            None,
            0,
            Some(origin_lv95),
            None,
            Some(epoch),
            Some(epoch),
            Some(0),
        ),
    );
    assert(sections@ =~= seq![origin_section(origin_lv95)]);
    RouteResult::new(epoch, departure_at, sections)
}

/// Of the first `count` routes, for each that arrives at a stop whose place
/// is known: the place, and the seconds from `departure_at` to the arrival at
/// that stop, a last walk counted.
pub open spec fn data_of(routes: Seq<RouteResult>, departure_at: DateTime, count: int) -> Seq<
    (hrdf_parser::Coordinates, i64),
>
    decreases count,
{
    if count <= 0 {
        Seq::empty()
    } else {
        let route = routes[count - 1];
        match route.sections@[route.sections@.len() - 1].arrival_stop_lv95_coordinates {
            Some(place) => data_of(routes, departure_at, count - 1).push(
                (place, (route.arrival_at.timestamp() - departure_at.timestamp()) as i64),
            ),
            None => data_of(routes, departure_at, count - 1),
        }
    }
}

/// For each route that arrives at a stop whose place is known: the place, and
/// the seconds from `departure_at` to the arrival at that stop, a last walk
/// counted.
pub fn get_data(routes: &Vec<RouteResult>, departure_at: DateTime) -> (data: Vec<
    (hrdf_parser::Coordinates, i64),
>)
    requires
        routes_are_told(routes@),
        departure_at.wf(),
    ensures
        data@ == data_of(routes@, departure_at, routes@.len() as int),
{
    let mut data: Vec<(hrdf_parser::Coordinates, i64)> = Vec::new();
    let mut at: usize = 0;
    while at < routes.len()
        invariant
            at <= routes@.len(),
            routes_are_told(routes@),
            departure_at.wf(),
            data@ == data_of(routes@, departure_at, at as int),
        decreases routes@.len() - at,
    {
        let route = &routes[at];
        let last: usize = route.sections.len() - 1;
        match route.sections[last].arrival_stop_lv95_coordinates {
            Some(place) => {
                data.push((place, route.arrival_at.seconds_since(departure_at)));
            },
            None => {},
        }
        at += 1;
    }
    data
}

/// Of the first `count` places, those reached within `time_limit` seconds,
/// each with the seconds that are left.
pub open spec fn within(data: Seq<(hrdf_parser::Coordinates, i64)>, time_limit: i64, count: int)
    -> Seq<(hrdf_parser::Coordinates, i64)>
    decreases count,
{
    if count <= 0 {
        Seq::empty()
    } else if data[count - 1].1 <= time_limit && time_limit - data[count - 1].1 <= i64::MAX {
        within(data, time_limit, count - 1).push(
            (data[count - 1].0, (time_limit - data[count - 1].1) as i64),
        )
    } else {
        within(data, time_limit, count - 1)
    }
}

/// The places reached within `time_limit` seconds, each with the seconds that
/// are left to walk on from there.
pub fn places_within(data: &Vec<(hrdf_parser::Coordinates, i64)>, time_limit: i64) -> (reached: Vec<
    (hrdf_parser::Coordinates, i64),
>)
    ensures
        reached@ == within(data@, time_limit, data@.len() as int),
{
    let mut reached: Vec<(hrdf_parser::Coordinates, i64)> = Vec::new();
    let mut at: usize = 0;
    while at < data.len()
        invariant
            at <= data@.len(),
            reached@ == within(data@, time_limit, at as int),
        decreases data@.len() - at,
    {
        let (place, duration) = data[at];
        if duration <= time_limit {
            match time_limit.checked_sub(duration) {
                Some(left) => {
                    reached.push((place, left));
                },
                None => {},
            }
        }
        at += 1;
    }
    reached
}

/// Whether a point that it takes `duration` seconds to reach is reached
/// within `time_limit` seconds.
pub open spec fn is_reached(duration: i64, time_limit: i64) -> bool {
    duration <= time_limit
}

/// A point that is reached within a limit is reached within every wider
/// limit: the area of each isochrone of a map lies within the area of the
/// next.
pub proof fn lemma_isochrones_are_nested(duration: i64, narrow: i64, wide: i64)
    requires
        narrow <= wide,
        is_reached(duration, narrow),
    ensures
        is_reached(duration, wide),
{
}

/// For each point of a grid, given the seconds that it takes to reach it,
/// whether it is reached within `time_limit` seconds.
pub fn reachable_cells(durations: &Vec<i64>, time_limit: i64) -> (cells: Vec<bool>)
    ensures
        cells@.len() == durations@.len(),
        forall|i: int|
            0 <= i < cells@.len() ==> #[trigger] cells@[i] == is_reached(durations@[i], time_limit),
{
    let mut cells: Vec<bool> = Vec::new();
    let mut at: usize = 0;
    while at < durations.len()
        invariant
            at <= durations@.len(),
            cells@.len() == at,
            forall|i: int|
                0 <= i < cells@.len() ==> #[trigger] cells@[i] == is_reached(
                    durations@[i],
                    time_limit,
                ),
        decreases durations@.len() - at,
    {
        cells.push(durations[at] <= time_limit);
        at += 1;
    }
    cells
}

/// The least of the given seconds; `None` where none are given.
pub fn earliest_arrival(durations: &Vec<i64>) -> (earliest: Option<i64>)
    ensures
        earliest.is_some() == (durations@.len() > 0),
        earliest matches Some(least) ==> durations@.contains(least) && forall|i: int|
            0 <= i < durations@.len() ==> least <= #[trigger] durations@[i],
{
    if durations.len() == 0 {
        return None;
    }
    let mut least: i64 = durations[0];
    let mut at: usize = 1;
    while at < durations.len()
        invariant
            1 <= at <= durations@.len(),
            durations@.contains(least),
            forall|i: int| 0 <= i < at ==> least <= #[trigger] durations@[i],
        decreases durations@.len() - at,
    {
        if durations[at] < least {
            least = durations[at];
        }
        at += 1;
    }
    Some(least)
}

} // verus!
