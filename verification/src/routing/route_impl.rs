//! How a route grows by a ride, and how it is handed out.
use crate::collections::{set_insert};
use crate::journey::{day_flag, day_shift, shifted};
use crate::routing::exchange::exchange_time_spec;
use crate::utils::lemma_timestamp_is_injective;
use crate::routing::models::{
    Route, RouteResult, RouteSection, RouteSectionResult, RouteView,
};
use crate::routing::utils::{clone_update_route, clone_update_spec};
use crate::timetable::{first_position, lemma_first_position, Journey, Timetable};
use crate::utils::{Date, DateTime};
use rustc_hash::FxHashSet;
use vstd::prelude::*;

verus! {

/// Days by which a walk may end before the first or after the last day of the
/// timetable.
pub const WALK_MARGIN: i32 = 30;

/// Whether passengers can change at the stop.
pub open spec fn is_exchange_point(timetable: Timetable, stop_id: i32) -> bool {
    timetable.has_stop(stop_id) && timetable.stop(stop_id).exchange_point
}

/// Whether a ride can end at the call `at` of the journey: passengers can
/// change there, or the journey ends there.
pub open spec fn is_halt(timetable: Timetable, journey: Journey, at: int) -> bool {
    is_exchange_point(timetable, journey.route@[at].stop_id) || journey.route@[at].stop_id
        == journey.last_stop()
}

/// Index of the first call from `from` on at which a ride can end; the length
/// of the route where there is none.
pub open spec fn next_halt(timetable: Timetable, journey: Journey, from: int) -> int
    decreases journey.route@.len() - from,
{
    if from < 0 || from >= journey.route@.len() {
        journey.route@.len() as int
    } else if is_halt(timetable, journey, from) {
        from
    } else {
        next_halt(timetable, journey, from + 1)
    }
}

pub proof fn lemma_next_halt(timetable: Timetable, journey: Journey, from: int)
    requires
        0 <= from,
    ensures
        next_halt(timetable, journey, from) <= journey.route@.len(),
        next_halt(timetable, journey, from) < journey.route@.len() ==> from <= next_halt(
            timetable,
            journey,
            from,
        ) && is_halt(timetable, journey, next_halt(timetable, journey, from)),
        forall|i: int|
            from <= i < next_halt(timetable, journey, from) && i < journey.route@.len() ==> !is_halt(
                timetable,
                journey,
                i,
            ),
        from < journey.route@.len() ==> next_halt(timetable, journey, from)
            < journey.route@.len(),
    decreases journey.route@.len() - from,
{
    if from < journey.route@.len() {
        if !is_halt(timetable, journey, from) {
            assert(from < journey.route@.len() - 1);
            lemma_next_halt(timetable, journey, from + 1);
        }
    }
}

/// The stops at which the journey calls after the call `from`, up to and with
/// the call `to`.
pub open spec fn stops_between(journey: Journey, from: int, to: int) -> Set<i32> {
    Set::new(
        |stop_id: i32|
            exists|i: int|
                from < i <= to && 0 <= i < journey.route@.len() && (
                #[trigger] journey.route@[i]).stop_id == stop_id,
    )
}

/// The ride on `journey` from `departure_stop_id` to the next stop at which a
/// ride can end, with the stops that it passes or reaches. `date` is the day on
/// which the journey leaves the stop of departure (with `is_departure_date`)
/// or arrives there (without).
pub open spec fn find_next_spec(
    timetable: Timetable,
    journey: Journey,
    departure_stop_id: i32,
    date: Date,
    is_departure_date: bool,
) -> Option<(RouteSection, Set<i32>)> {
    let from = journey.departure_position(departure_stop_id);
    let to = next_halt(timetable, journey, from + 1);
    if from >= journey.route@.len() || to >= journey.route@.len() {
        None
    } else {
        match journey.arrival_at_with_origin_spec(
            journey.route@[to].stop_id,
            date,
            is_departure_date,
            departure_stop_id,
        ) {
            Some(arrival_at) => Some(
                (
                    RouteSection {
                        journey_id: Some(journey.id),
                        departure_stop_id,
                        arrival_stop_id: journey.route@[to].stop_id,
                        arrival_at,
                        duration: None,
                    },
                    stops_between(journey, from, to),
                ),
            ),
            None => None,
        }
    }
}

/// `route` with the next ride on the journey `journey_id` from the stop at
/// which it has arrived; `None` where the journey ends there, where it offers
/// no such ride, or where the ride leads back to a stop at which the route has
/// been, but for a ride that ends where the journey began.
pub open spec fn extend_spec(
    timetable: Timetable,
    route: RouteView,
    journey_id: i32,
    date: Date,
    is_departure_date: bool,
) -> Option<RouteView> {
    let journey = timetable.journey(journey_id);
    if journey.is_last_stop_spec(route.arrival_stop_id(), false) {
        None
    } else {
        match find_next_spec(timetable, journey, route.arrival_stop_id(), date, is_departure_date) {
            Some((section, visited)) => {
                if !route.visited_stops.disjoint(visited) && section.arrival_stop_id
                    != journey.first_stop() {
                    None
                } else {
                    Some(
                        clone_update_spec(
                            route,
                            section,
                            route.last_section().journey_id == Some(journey_id),
                            visited,
                        ),
                    )
                }
            },
            None => None,
        }
    }
}

impl Timetable {
    /// Whether a day lies in the timetable or no more than [`WALK_MARGIN`]
    /// days from it.
    pub open spec fn is_near(self, date: Date) -> bool {
        self.start_date.days - WALK_MARGIN <= date.days <= self.end_date.days + WALK_MARGIN
    }
}

impl RouteSection {
    /// Number of the day on which the journey of a ride began.
    pub open spec fn journey_day(self, timetable: Timetable) -> int {
        self.arrival_at.date.days - day_flag(
            timetable.journey(self.journey_id.unwrap()).arrival_time_spec(
                self.arrival_stop_id,
            ).unwrap().1,
        )
    }

    /// A ride goes along a journey of the timetable from one call to a later
    /// one, on a day of the timetable, and arrives at the time of day that the
    /// journey states; a walk states its minutes and ends near the timetable.
    pub open spec fn fits(self, timetable: Timetable) -> bool {
        &&& self.arrival_at.wf()
        &&& match self.journey_id {
            Some(id) => {
                let journey = timetable.journey(id);
                &&& timetable.has_journey(id)
                &&& journey.departure_position(self.departure_stop_id) < journey.arrival_position(
                    self.arrival_stop_id,
                )
                &&& journey.arrival_position(self.arrival_stop_id) < journey.route@.len()
                &&& timetable.start_date.days <= self.journey_day(timetable)
                    <= timetable.end_date.days
                &&& self.arrival_at.time == journey.arrival_time_spec(
                    self.arrival_stop_id,
                ).unwrap().0
            },
            None => self.duration.is_some() && timetable.is_near(self.arrival_at.date),
        }
    }

    /// Instant at which a ride leaves.
    pub open spec fn departure_at(self, timetable: Timetable) -> DateTime {
        timetable.journey(self.journey_id.unwrap()).departure_at_with_origin_spec(
            self.departure_stop_id,
            self.arrival_at.date,
            false,
            self.arrival_stop_id,
        ).unwrap()
    }

    /// The stops that the section passes or reaches.
    pub open spec fn stops(self, timetable: Timetable) -> Set<i32> {
        match self.journey_id {
            Some(id) => {
                let journey = timetable.journey(id);
                stops_between(
                    journey,
                    journey.departure_position(self.departure_stop_id),
                    journey.arrival_position(self.arrival_stop_id),
                )
            },
            None => Set::empty().insert(self.arrival_stop_id),
        }
    }
}

impl RouteView {
    /// The section `i` ends where the next one begins.
    pub open spec fn is_joined_at(self, i: int) -> bool {
        self.sections[i].arrival_stop_id == self.sections[i + 1].departure_stop_id
    }

    /// Each section begins where the one before it ended.
    pub open spec fn is_continuous(self) -> bool {
        forall|i: int| 0 <= i < self.sections.len() - 1 ==> #[trigger] self.is_joined_at(i)
    }

    /// Of the section `i` and the next one, one is a ride.
    pub open spec fn rides_at(self, i: int) -> bool {
        self.sections[i].is_ride() || self.sections[i + 1].is_ride()
    }

    /// No walk follows a walk.
    pub open spec fn alternates(self) -> bool {
        forall|i: int| 0 <= i < self.sections.len() - 1 ==> #[trigger] self.rides_at(i)
    }

    /// Whether the section `i` passes or reaches the stop.
    pub open spec fn passes(self, timetable: Timetable, i: int, stop_id: i32) -> bool {
        self.sections[i].stops(timetable).contains(stop_id)
    }

    /// The route has been at the stop where it began and at every stop that
    /// one of its sections passes or reaches.
    pub open spec fn has_visited_its_stops(self, timetable: Timetable) -> bool {
        &&& self.visited_stops.contains(self.sections[0].departure_stop_id)
        &&& forall|i: int, stop_id: i32|
            0 <= i < self.sections.len() && #[trigger] self.passes(timetable, i, stop_id)
                ==> self.visited_stops.contains(stop_id)
    }

    /// Whether the route has been at the stop before the section `j`: it
    /// began there, or a section before the section `j` passes or reaches it.
    pub open spec fn was_at_before(self, timetable: Timetable, j: int, stop_id: i32) -> bool {
        ||| j > 0 && stop_id == self.sections[0].departure_stop_id
        ||| exists|i: int| 0 <= i < j && #[trigger] self.passes(timetable, i, stop_id)
    }

    /// Whether the section `j` is a ride on a journey that ends where it
    /// began.
    pub open spec fn is_round_trip_at(self, timetable: Timetable, j: int) -> bool {
        self.sections[j].journey_id.is_some() && timetable.journey(
            self.sections[j].journey_id.unwrap(),
        ).first_stop() == timetable.journey(self.sections[j].journey_id.unwrap()).last_stop()
    }

    /// The section `j` passes and reaches no stop at which the route has been
    /// before, but for a ride on a journey that ends where it began.
    pub open spec fn is_new_at(self, timetable: Timetable, j: int) -> bool {
        self.is_round_trip_at(timetable, j) || forall|stop_id: i32| #[trigger]
            self.passes(timetable, j, stop_id) ==> !self.was_at_before(timetable, j, stop_id)
    }

    /// No section leads back to a stop at which the route has been, but for
    /// rides on journeys that end where they began.
    pub open spec fn never_returns(self, timetable: Timetable) -> bool {
        forall|j: int| 0 <= j < self.sections.len() ==> #[trigger] self.is_new_at(timetable, j)
    }

    /// The sections of the route are rides and walks of the timetable that
    /// follow one another from stop to stop, and none leads back.
    pub open spec fn is_shaped(self, timetable: Timetable) -> bool {
        &&& self.wf()
        &&& forall|i: int|
            0 <= i < self.sections.len() ==> (#[trigger] self.sections[i]).fits(timetable)
        &&& self.is_continuous()
        &&& self.alternates()
        &&& self.has_visited_its_stops(timetable)
        &&& self.never_returns(timetable)
    }

    /// Where the section `i` and the next one are rides, the next one leaves
    /// when the time that the change takes has gone by, or later.
    pub open spec fn changes_in_time_at(self, timetable: Timetable, i: int) -> bool {
        let arrived = self.sections[i];
        let boarded = self.sections[i + 1];
        arrived.is_ride() && boarded.is_ride() ==> arrived.arrival_at.timestamp() + 60
            * exchange_time_spec(
            timetable,
            boarded.departure_stop_id,
            arrived.journey_id.unwrap(),
            boarded.journey_id.unwrap(),
            boarded.departure_at(timetable),
        ) <= boarded.departure_at(timetable).timestamp()
    }

    /// Where the section after the section `i` is a ride, it leaves when the
    /// section `i` has arrived, or later.
    pub open spec fn boards_in_time_at(self, timetable: Timetable, i: int) -> bool {
        self.sections[i + 1].is_ride() ==> self.sections[i].arrival_at.timestamp()
            <= self.sections[i + 1].departure_at(timetable).timestamp()
    }

    /// No ride leaves before the section before it has arrived, nor, after a
    /// ride, before the time that the change takes has gone by.
    pub open spec fn keeps_time(self, timetable: Timetable) -> bool {
        forall|i: int|
            0 <= i < self.sections.len() - 1 ==> #[trigger] self.changes_in_time_at(timetable, i)
                && self.boards_in_time_at(timetable, i)
    }

    /// The section `i` takes no less than no time: a ride arrives when it
    /// has left, or later, and a walk when the section before it has arrived,
    /// or later.
    pub open spec fn advances_at(self, timetable: Timetable, i: int) -> bool {
        if self.sections[i].is_ride() {
            self.sections[i].departure_at(timetable).timestamp()
                <= self.sections[i].arrival_at.timestamp()
        } else {
            &&& self.sections[i].duration.unwrap() >= 0
            &&& i >= 1 ==> self.sections[i - 1].arrival_at.timestamp()
                <= self.sections[i].arrival_at.timestamp()
        }
    }

    /// No section takes less than no time.
    pub open spec fn advances(self, timetable: Timetable) -> bool {
        forall|i: int| 0 <= i < self.sections.len() ==> #[trigger] self.advances_at(timetable, i)
    }

    /// What holds of every route that the search builds on a timetable: it is
    /// shaped by the timetable and keeps the times of departure and of
    /// change; and on a timetable whose journeys and walks take no less than
    /// no time, so do its sections.
    pub open spec fn fits(self, timetable: Timetable) -> bool {
        &&& self.is_shaped(timetable)
        &&& self.keeps_time(timetable)
        &&& timetable.is_chronological() ==> self.advances(timetable)
    }
}

/// Where a journey calls at a stop after its first call, that is the only
/// call there but for the first.
pub proof fn lemma_arrival_position_of_call(journey: Journey, at: int)
    requires
        journey.wf(),
        1 <= at < journey.route@.len(),
    ensures
        journey.arrival_position(journey.route@[at].stop_id) == at,
{
    let stops = journey.stop_ids();
    lemma_first_position(stops, stops[at], 1);
    let found = first_position(stops, stops[at], 1);
    if found < at {
        assert(journey.route@[found].stop_id == journey.route@[at].stop_id);
    }
}

/// A stop at which a journey arrives without ending there is a stop that it
/// leaves from the same call.
pub proof fn lemma_departure_position_of_arrival(journey: Journey, stop_id: i32)
    requires
        journey.wf(),
        journey.arrival_position(stop_id) < journey.route@.len(),
        stop_id != journey.last_stop(),
    ensures
        journey.departure_position(stop_id) == journey.arrival_position(stop_id),
{
    let stops = journey.stop_ids();
    lemma_first_position(stops, stop_id, 1);
    lemma_first_position(stops, stop_id, 0);
    let arrival = first_position(stops, stop_id, 1);
    let departure = first_position(stops, stop_id, 0);
    assert(journey.route@[arrival].stop_id == stop_id);
    if departure < arrival {
        assert(journey.route@[departure].stop_id == stop_id);
    }
}

/// A section that led to no stop at which a route had been does not do so in
/// a route that is the same up to that section.
pub proof fn lemma_is_new_at_prefix(timetable: Timetable, old: RouteView, new: RouteView, j: int)
    requires
        0 <= j < old.sections.len(),
        j < new.sections.len(),
        forall|k: int| 0 <= k <= j ==> new.sections[k] == old.sections[k],
        old.is_new_at(timetable, j),
    ensures
        new.is_new_at(timetable, j),
{
    assert(new.sections[j] == old.sections[j]);
    assert(new.sections[0] == old.sections[0]);
    if !new.is_round_trip_at(timetable, j) {
        assert forall|stop_id: i32| #[trigger]
            new.passes(timetable, j, stop_id) implies !new.was_at_before(timetable, j, stop_id) by {
            assert(old.passes(timetable, j, stop_id));
            lemma_was_at_before_prefix(timetable, old, new, j, stop_id);
        }
    }
}

/// Whether a route had been at a stop before a section depends on the
/// sections before that section alone.
pub proof fn lemma_was_at_before_prefix(
    timetable: Timetable,
    old: RouteView,
    new: RouteView,
    j: int,
    stop_id: i32,
)
    requires
        0 <= j <= old.sections.len(),
        j <= new.sections.len(),
        old.sections.len() > 0,
        new.sections.len() > 0,
        new.sections[0].departure_stop_id == old.sections[0].departure_stop_id,
        forall|k: int| 0 <= k < j ==> new.sections[k] == old.sections[k],
    ensures
        new.was_at_before(timetable, j, stop_id) == old.was_at_before(timetable, j, stop_id),
{
    if exists|i: int| 0 <= i < j && #[trigger] new.passes(timetable, i, stop_id) {
        let i = choose|i: int| 0 <= i < j && #[trigger] new.passes(timetable, i, stop_id);
        assert(new.sections[i] == old.sections[i]);
        assert(old.passes(timetable, i, stop_id));
    }
    if exists|i: int| 0 <= i < j && #[trigger] old.passes(timetable, i, stop_id) {
        let i = choose|i: int| 0 <= i < j && #[trigger] old.passes(timetable, i, stop_id);
        assert(new.sections[i] == old.sections[i]);
        assert(new.passes(timetable, i, stop_id));
    }
}

/// A route that has visited its stops has visited every stop at which it has
/// been before one of its sections.
pub proof fn lemma_was_at_before_is_visited(
    timetable: Timetable,
    route: RouteView,
    j: int,
    stop_id: i32,
)
    requires
        0 <= j <= route.sections.len(),
        route.has_visited_its_stops(timetable),
        route.was_at_before(timetable, j, stop_id),
    ensures
        route.visited_stops.contains(stop_id),
{
    if exists|i: int| 0 <= i < j && #[trigger] route.passes(timetable, i, stop_id) {
        let i = choose|i: int| 0 <= i < j && #[trigger] route.passes(timetable, i, stop_id);
        assert(route.passes(timetable, i, stop_id));
    }
}

/// A journey that comes back to its first stop ends there.
pub proof fn lemma_back_at_first_stop(journey: Journey, at: int)
    requires
        journey.wf(),
        1 <= at < journey.route@.len(),
        journey.route@[at].stop_id == journey.first_stop(),
    ensures
        journey.first_stop() == journey.last_stop(),
{
    assert(journey.route@[0].stop_id == journey.route@[at].stop_id);
}

/// What [`extend_spec`] returns is shaped by the timetable, where the route
/// was and the journey began on a day of the timetable.
pub proof fn lemma_extend_is_shaped(
    timetable: Timetable,
    route: RouteView,
    journey_id: i32,
    date: Date,
    is_departure_date: bool,
)
    requires
        timetable.wf(),
        route.is_shaped(timetable),
        timetable.has_journey(journey_id),
        i32::MIN < date.days < i32::MAX,
        extend_spec(timetable, route, journey_id, date, is_departure_date).is_some(),
        timetable.start_date.days <= date.days - day_flag(
            timetable.journey(journey_id).origin_is_next_day(
                route.arrival_stop_id(),
                is_departure_date,
            ).unwrap(),
        ) <= timetable.end_date.days,
    ensures
        extend_spec(timetable, route, journey_id, date, is_departure_date).unwrap().is_shaped(
            timetable,
        ),
{
    let journey = timetable.journey(journey_id);
    let stop_id = route.arrival_stop_id();
    let from = journey.departure_position(stop_id);
    let to = next_halt(timetable, journey, from + 1);
    lemma_first_position(journey.stop_ids(), stop_id, 0);
    lemma_next_halt(timetable, journey, from + 1);
    let found = find_next_spec(timetable, journey, stop_id, date, is_departure_date).unwrap();
    let section = found.0;
    let visited = found.1;
    let new = extend_spec(timetable, route, journey_id, date, is_departure_date).unwrap();
    let last = route.sections.len() - 1;
    lemma_arrival_position_of_call(journey, to);
    assert(section.arrival_stop_id == journey.route@[to].stop_id);
    assert(journey.arrival_position(section.arrival_stop_id) == to);
    let continues = route.last_section().journey_id == Some(journey_id);
    if continues {
        let old_last = route.sections[last];
        assert(old_last.fits(timetable));
        lemma_departure_position_of_arrival(journey, stop_id);
        let new_last = new.sections[last];
        assert(new_last.fits(timetable));
        assert forall|i: int| 0 <= i < new.sections.len() implies (#[trigger] new.sections[i]).fits(
            timetable,
        ) by {
            if i < last {
                assert(new.sections[i] == route.sections[i]);
                assert(route.sections[i].fits(timetable));
            }
        }
        assert(new.is_continuous()) by {
            assert forall|i: int| 0 <= i < new.sections.len() - 1 implies #[trigger] new.is_joined_at(
                i,
            ) by {
                assert(route.is_joined_at(i));
            }
        }
        assert(new.alternates()) by {
            assert forall|i: int| 0 <= i < new.sections.len() - 1 implies #[trigger] new.rides_at(
                i,
            ) by {
                assert(route.rides_at(i));
            }
        }
        assert(new.has_visited_its_stops(timetable)) by {
            assert forall|i: int, id: i32|
                0 <= i < new.sections.len() && #[trigger] new.passes(
                    timetable,
                    i,
                    id,
                ) implies new.visited_stops.contains(id) by {
                if i < last {
                    assert(new.sections[i] == route.sections[i]);
                    assert(route.passes(timetable, i, id));
                } else {
                    let begin = journey.departure_position(old_last.departure_stop_id);
                    let k = choose|k: int|
                        begin < k <= to && 0 <= k < journey.route@.len() && (
                        #[trigger] journey.route@[k]).stop_id == id;
                    if k <= from {
                        assert(old_last.stops(timetable).contains(id));
                        assert(route.passes(timetable, last, id));
                    } else {
                        assert(visited.contains(id));
                    }
                }
            }
        }
        assert(new.never_returns(timetable)) by {
            assert forall|j: int| 0 <= j < new.sections.len() implies #[trigger] new.is_new_at(
                timetable,
                j,
            ) by {
                assert(route.is_new_at(timetable, j));
                if j < last {
                    lemma_is_new_at_prefix(timetable, route, new, j);
                } else if section.arrival_stop_id == journey.first_stop() {
                    lemma_back_at_first_stop(journey, to);
                } else if !new.is_round_trip_at(timetable, j) {
                    assert(!route.is_round_trip_at(timetable, j));
                    assert forall|id: i32| #[trigger]
                        new.passes(timetable, j, id) implies !new.was_at_before(
                        timetable,
                        j,
                        id,
                    ) by {
                        lemma_was_at_before_prefix(timetable, route, new, j, id);
                        let begin = journey.departure_position(old_last.departure_stop_id);
                        let k = choose|k: int|
                            begin < k <= to && 0 <= k < journey.route@.len() && (
                            #[trigger] journey.route@[k]).stop_id == id;
                        if k <= from {
                            assert(old_last.stops(timetable).contains(id));
                            assert(route.passes(timetable, last, id));
                        } else {
                            assert(visited.contains(id));
                            if route.was_at_before(timetable, j, id) {
                                lemma_was_at_before_is_visited(timetable, route, j, id);
                            }
                        }
                    }
                }
            }
        }
    } else {
        assert(section.fits(timetable));
        assert forall|i: int| 0 <= i < new.sections.len() implies (#[trigger] new.sections[i]).fits(
            timetable,
        ) by {
            if i <= last {
                assert(new.sections[i] == route.sections[i]);
                assert(route.sections[i].fits(timetable));
            }
        }
        assert(new.is_continuous()) by {
            assert forall|i: int| 0 <= i < new.sections.len() - 1 implies #[trigger] new.is_joined_at(
                i,
            ) by {
                if i < last {
                    assert(route.is_joined_at(i));
                }
            }
        }
        assert(new.alternates()) by {
            assert forall|i: int| 0 <= i < new.sections.len() - 1 implies #[trigger] new.rides_at(
                i,
            ) by {
                if i < last {
                    assert(route.rides_at(i));
                }
            }
        }
        assert(new.has_visited_its_stops(timetable)) by {
            assert forall|i: int, id: i32|
                0 <= i < new.sections.len() && #[trigger] new.passes(
                    timetable,
                    i,
                    id,
                ) implies new.visited_stops.contains(id) by {
                if i <= last {
                    assert(new.sections[i] == route.sections[i]);
                    assert(route.passes(timetable, i, id));
                } else {
                    assert(visited.contains(id));
                }
            }
        }
        assert(new.never_returns(timetable)) by {
            assert forall|j: int| 0 <= j < new.sections.len() implies #[trigger] new.is_new_at(
                timetable,
                j,
            ) by {
                if j <= last {
                    assert(route.is_new_at(timetable, j));
                    lemma_is_new_at_prefix(timetable, route, new, j);
                } else if section.arrival_stop_id == journey.first_stop() {
                    lemma_back_at_first_stop(journey, to);
                } else {
                    assert forall|id: i32| #[trigger]
                        new.passes(timetable, j, id) implies !new.was_at_before(
                        timetable,
                        j,
                        id,
                    ) by {
                        assert(visited.contains(id));
                        if new.was_at_before(timetable, j, id) {
                            lemma_was_at_before_prefix(
                                timetable,
                                route,
                                new,
                                route.sections.len() as int,
                                id,
                            );
                            lemma_was_at_before_is_visited(
                                timetable,
                                route,
                                route.sections.len() as int,
                                id,
                            );
                        }
                    }
                }
            }
        }
    }
}

/// A ride that fits the timetable leaves and arrives as many seconds after
/// the midnight before its journey began as the journey says.
pub proof fn lemma_ride_times(timetable: Timetable, ride: RouteSection)
    requires
        timetable.wf(),
        ride.fits(timetable),
        ride.is_ride(),
    ensures
        ({
            let journey = timetable.journey(ride.journey_id.unwrap());
            let from = journey.departure_position(ride.departure_stop_id);
            let to = journey.arrival_position(ride.arrival_stop_id);
            &&& journey.wf()
            &&& 0 <= from < to < journey.route@.len()
            &&& journey == timetable.journeys@[timetable.journey_positions@[ride.journey_id.unwrap()] as int]
            &&& timetable.journey_positions@[ride.journey_id.unwrap()] < timetable.journeys@.len()
            &&& ride.departure_at(timetable).wf()
            &&& ride.departure_at(timetable).timestamp() == ride.journey_day(timetable) * 86_400
                + journey.departure_offset(from)
            &&& ride.arrival_at.timestamp() == ride.journey_day(timetable) * 86_400
                + journey.arrival_offset(to)
        }),
{
    let journey = timetable.journey(ride.journey_id.unwrap());
    assert(journey.wf());
    lemma_first_position(journey.stop_ids(), ride.departure_stop_id, 0);
    lemma_first_position(journey.stop_ids(), ride.arrival_stop_id, 1);
    let from = journey.departure_position(ride.departure_stop_id);
    let to = journey.arrival_position(ride.arrival_stop_id);
    assert(journey.route@[from].departure_time.is_some());
    assert(journey.route@[from].wf());
    assert(journey.route@[to].arrival_time.is_some());
    assert(journey.route@[to].wf());
    assert(journey.route@[0].departure_time.is_some());
    let left = journey.departure_time_spec(ride.departure_stop_id).unwrap();
    let arrived = journey.arrival_time_spec(ride.arrival_stop_id).unwrap();
    assert(journey.origin_is_next_day(ride.arrival_stop_id, false) == Some(arrived.1));
    assert(timetable.records_wf());
    let shift = day_shift(left.1, arrived.1);
    assert(-1 <= shift <= 1);
    assert(shifted(ride.arrival_at.date, shift).days == ride.arrival_at.date.days + shift);
    assert(ride.departure_at(timetable) == DateTime {
        date: shifted(ride.arrival_at.date, shift),
        time: left.0,
    });
    assert(shift == day_flag(left.1) - day_flag(arrived.1));
}

/// Two rides on one journey that began on one day and leave from one stop
/// leave at one instant.
pub proof fn lemma_same_departure(timetable: Timetable, first: RouteSection, second: RouteSection)
    requires
        timetable.wf(),
        first.fits(timetable),
        second.fits(timetable),
        first.is_ride(),
        first.journey_id == second.journey_id,
        first.departure_stop_id == second.departure_stop_id,
        first.journey_day(timetable) == second.journey_day(timetable),
    ensures
        first.departure_at(timetable) == second.departure_at(timetable),
{
    lemma_ride_times(timetable, first);
    lemma_ride_times(timetable, second);
    lemma_timestamp_is_injective(first.departure_at(timetable), second.departure_at(timetable));
}

/// On a timetable whose journeys take no less than no time, a ride that fits
/// it arrives when it has left, or later.
pub proof fn lemma_ride_advances(timetable: Timetable, ride: RouteSection)
    requires
        timetable.wf(),
        timetable.is_chronological(),
        ride.fits(timetable),
        ride.is_ride(),
    ensures
        ride.departure_at(timetable).timestamp() <= ride.arrival_at.timestamp(),
{
    lemma_ride_times(timetable, ride);
    let journey = timetable.journey(ride.journey_id.unwrap());
    let from = journey.departure_position(ride.departure_stop_id);
    let to = journey.arrival_position(ride.arrival_stop_id);
    assert(journey.is_chronological());
    assert(journey.departure_offset(from) <= journey.arrival_offset(to));
}

/// What the ride that [`find_next_spec`] finds is like.
pub proof fn lemma_found_section(
    timetable: Timetable,
    journey_id: i32,
    departure_stop_id: i32,
    date: Date,
    is_departure_date: bool,
)
    requires
        timetable.wf(),
        timetable.has_journey(journey_id),
        i32::MIN < date.days < i32::MAX,
        find_next_spec(
            timetable,
            timetable.journey(journey_id),
            departure_stop_id,
            date,
            is_departure_date,
        ).is_some(),
    ensures
        ({
            let journey = timetable.journey(journey_id);
            let found = find_next_spec(
                timetable,
                journey,
                departure_stop_id,
                date,
                is_departure_date,
            ).unwrap();
            let from = journey.departure_position(departure_stop_id);
            let to = next_halt(timetable, journey, from + 1);
            &&& found.0.journey_id == Some(journey_id)
            &&& found.0.departure_stop_id == departure_stop_id
            &&& found.0.arrival_stop_id == journey.route@[to].stop_id
            &&& found.0.arrival_at.wf()
            &&& 0 <= from < to < journey.route@.len()
            &&& journey.arrival_position(found.0.arrival_stop_id) == to
            &&& journey.origin_is_next_day(departure_stop_id, is_departure_date).is_some()
            &&& found.0.journey_day(timetable) == date.days - day_flag(
                journey.origin_is_next_day(departure_stop_id, is_departure_date).unwrap(),
            )
            &&& found.1 == stops_between(journey, from, to)
        }),
{
    let journey = timetable.journey(journey_id);
    assert(journey.wf());
    lemma_first_position(journey.stop_ids(), departure_stop_id, 0);
    let from = journey.departure_position(departure_stop_id);
    lemma_next_halt(timetable, journey, from + 1);
    let to = next_halt(timetable, journey, from + 1);
    lemma_arrival_position_of_call(journey, to);
    assert(journey.route@[to].wf());
    assert(journey.route@[to].arrival_time.is_some());
}

/// What [`extend_spec`] returns keeps the times of departure and of change,
/// where the route did and the ride that is added does: a ride that carries
/// the last ride on, or a ride on another journey that leaves when the route
/// has arrived and the change is made, or later.
pub proof fn lemma_extend_keeps_time(
    timetable: Timetable,
    route: RouteView,
    journey_id: i32,
    date: Date,
    is_departure_date: bool,
)
    requires
        timetable.wf(),
        route.fits(timetable),
        timetable.has_journey(journey_id),
        i32::MIN < date.days < i32::MAX,
        extend_spec(timetable, route, journey_id, date, is_departure_date).is_some(),
        timetable.start_date.days <= date.days - day_flag(
            timetable.journey(journey_id).origin_is_next_day(
                route.arrival_stop_id(),
                is_departure_date,
            ).unwrap(),
        ) <= timetable.end_date.days,
        is_boarded_in_time(timetable, route, journey_id, date, is_departure_date),
    ensures
        extend_spec(timetable, route, journey_id, date, is_departure_date).unwrap().keeps_time(
            timetable,
        ),
        timetable.is_chronological() ==> extend_spec(
            timetable,
            route,
            journey_id,
            date,
            is_departure_date,
        ).unwrap().advances(timetable),
{
    lemma_extend_is_shaped(timetable, route, journey_id, date, is_departure_date);
    lemma_found_section(timetable, journey_id, route.arrival_stop_id(), date, is_departure_date);
    let journey = timetable.journey(journey_id);
    let new = extend_spec(timetable, route, journey_id, date, is_departure_date).unwrap();
    let last = route.sections.len() - 1;
    let old_last = route.sections[last];
    assert(old_last.fits(timetable));
    if is_departure_date {
        let added = new.sections[last + 1];
        assert(added.fits(timetable));
        lemma_ride_times(timetable, added);
        let boarded = DateTime { date, time: journey.departure_time_spec(route.arrival_stop_id()).unwrap().0 };
        assert(added.departure_at(timetable).timestamp() == boarded.timestamp());
        lemma_timestamp_is_injective(added.departure_at(timetable), boarded);
        assert forall|i: int| 0 <= i < new.sections.len() - 1 implies #[trigger] new.changes_in_time_at(
            timetable,
            i,
        ) && new.boards_in_time_at(timetable, i) by {
            if i < last {
                assert(new.sections[i] == route.sections[i]);
                assert(new.sections[i + 1] == route.sections[i + 1]);
                assert(route.changes_in_time_at(timetable, i));
            } else {
                assert(new.sections[i] == old_last);
                assert(route.is_joined_at(last - 1) || last == 0);
            }
        }
        if timetable.is_chronological() {
            lemma_ride_advances(timetable, added);
            assert forall|i: int| 0 <= i < new.sections.len() implies #[trigger] new.advances_at(
                timetable,
                i,
            ) by {
                if i <= last {
                    assert(new.sections[i] == route.sections[i]);
                    if i >= 1 {
                        assert(new.sections[i - 1] == route.sections[i - 1]);
                    }
                    assert(route.advances_at(timetable, i));
                }
            }
        }
    } else {
        let carried = new.sections[last];
        assert(carried.fits(timetable));
        lemma_same_departure(timetable, old_last, carried);
        assert forall|i: int| 0 <= i < new.sections.len() - 1 implies #[trigger] new.changes_in_time_at(
            timetable,
            i,
        ) && new.boards_in_time_at(timetable, i) by {
            assert(new.sections[i] == route.sections[i]);
            assert(route.changes_in_time_at(timetable, i));
            if i + 1 < last {
                assert(new.sections[i + 1] == route.sections[i + 1]);
            }
        }
        if timetable.is_chronological() {
            lemma_ride_advances(timetable, carried);
            assert forall|i: int| 0 <= i < new.sections.len() implies #[trigger] new.advances_at(
                timetable,
                i,
            ) by {
                if i < last {
                    assert(new.sections[i] == route.sections[i]);
                    if i >= 1 {
                        assert(new.sections[i - 1] == route.sections[i - 1]);
                    }
                    assert(route.advances_at(timetable, i));
                }
            }
        }
    }
}

/// Whether the ride by which a route is extended is boarded in time: it
/// carries the last ride of the route on; or it is a ride on another journey
/// that leaves when the route has arrived, or later, and, where the route
/// has arrived by a ride, when the time that the change takes has gone by.
pub open spec fn is_boarded_in_time(
    timetable: Timetable,
    route: RouteView,
    journey_id: i32,
    date: Date,
    is_departure_date: bool,
) -> bool {
    if is_departure_date {
        let boarded = DateTime {
            date,
            time: timetable.journey(journey_id).departure_time_spec(
                route.arrival_stop_id(),
            ).unwrap().0,
        };
        &&& route.last_section().journey_id != Some(journey_id)
        &&& route.arrival_at().timestamp() <= boarded.timestamp()
        &&& route.last_section().journey_id.is_some() ==> route.arrival_at().timestamp() + 60
            * exchange_time_spec(
            timetable,
            route.arrival_stop_id(),
            route.last_section().journey_id.unwrap(),
            journey_id,
            boarded,
        ) <= boarded.timestamp()
    } else {
        route.last_section().journey_id == Some(journey_id) && date == route.arrival_at().date
    }
}

/// What [`extend_spec`] returns fits the timetable, where the route did, the
/// journey began on a day of the timetable, and the ride that is added is
/// boarded in time.
pub proof fn lemma_extend_fits(
    timetable: Timetable,
    route: RouteView,
    journey_id: i32,
    date: Date,
    is_departure_date: bool,
)
    requires
        timetable.wf(),
        route.fits(timetable),
        timetable.has_journey(journey_id),
        i32::MIN < date.days < i32::MAX,
        extend_spec(timetable, route, journey_id, date, is_departure_date).is_some(),
        timetable.start_date.days <= date.days - day_flag(
            timetable.journey(journey_id).origin_is_next_day(
                route.arrival_stop_id(),
                is_departure_date,
            ).unwrap(),
        ) <= timetable.end_date.days,
        is_boarded_in_time(timetable, route, journey_id, date, is_departure_date),
    ensures
        extend_spec(timetable, route, journey_id, date, is_departure_date).unwrap().fits(timetable),
{
    lemma_extend_is_shaped(timetable, route, journey_id, date, is_departure_date);
    lemma_extend_keeps_time(timetable, route, journey_id, date, is_departure_date);
}

impl RouteSection {
    /// The ride on `journey` from `departure_stop_id` to the next stop at
    /// which a ride can end, with the stops that it passes or reaches. `date`
    /// is the day on which the journey leaves the stop of departure (with
    /// `is_departure_date`) or arrives there (without).
    pub fn find_next(
        timetable: &Timetable,
        journey: &Journey,
        departure_stop_id: i32,
        date: Date,
        is_departure_date: bool,
    ) -> (found: Option<(RouteSection, FxHashSet<i32>)>)
        requires
            timetable.wf(),
            journey.wf(),
            i32::MIN < date.days < i32::MAX,
        ensures
            found.is_some() == find_next_spec(
                *timetable,
                *journey,
                departure_stop_id,
                date,
                is_departure_date,
            ).is_some(),
            found matches Some((section, visited)) ==> find_next_spec(
                *timetable,
                *journey,
                departure_stop_id,
                date,
                is_departure_date,
            ) == Some((section, visited@)) && section.arrival_at.wf(),
    {
        let from: usize = journey.position_from(departure_stop_id, 0);
        if from >= journey.route.len() {
            return None;
        }
        let mut visited: FxHashSet<i32> = FxHashSet::default();
        let mut at: usize = from + 1;
        proof {
            lemma_next_halt(*timetable, *journey, from + 1);
            assert(visited@ =~= stops_between(*journey, from as int, from as int));
        }
        while at < journey.route.len()
            invariant
                timetable.wf(),
                journey.wf(),
                from < at <= journey.route@.len(),
                from == journey.departure_position(departure_stop_id),
                i32::MIN < date.days < i32::MAX,
                next_halt(*timetable, *journey, from + 1) == next_halt(
                    *timetable,
                    *journey,
                    at as int,
                ),
                visited@ == stops_between(*journey, from as int, at - 1),
            decreases journey.route@.len() - at,
        {
            let stop_id: i32 = journey.route[at].stop_id;
            set_insert(&mut visited, stop_id);
            proof {
                assert(visited@ =~= stops_between(*journey, from as int, at as int)) by {
                    assert forall|id: i32|
                        visited@.contains(id) == stops_between(
                            *journey,
                            from as int,
                            at as int,
                        ).contains(id) by {
                        if stops_between(*journey, from as int, at as int).contains(id) {
                            let i = choose|i: int|
                                from < i <= at && 0 <= i < journey.route@.len() && (
                                #[trigger] journey.route@[i]).stop_id == id;
                            if i < at {
                                assert(stops_between(*journey, from as int, at - 1).contains(id));
                            }
                        }
                        if stops_between(*journey, from as int, at - 1).contains(id) {
                            let i = choose|i: int|
                                from < i <= at - 1 && 0 <= i < journey.route@.len() && (
                                #[trigger] journey.route@[i]).stop_id == id;
                            assert(from < i <= at);
                        }
                        if id == stop_id {
                            assert(journey.route@[at as int].stop_id == id);
                        }
                    }
                }
            }
            let exchange_point: bool = match timetable.find_stop(stop_id) {
                Some(stop) => stop.exchange_point,
                None => false,
            };
            if exchange_point || journey.is_last_stop(stop_id, false) {
                assert(is_halt(*timetable, *journey, at as int));
                return match journey.arrival_at_of_with_origin(
                    stop_id,
                    date,
                    is_departure_date,
                    departure_stop_id,
                ) {
                    Some(arrival_at) => Some(
                        (
                            RouteSection::new(
                                Some(journey.id),
                                departure_stop_id,
                                stop_id,
                                arrival_at,
                                None,
                            ),
                            visited,
                        ),
                    ),
                    None => None,
                };
            }
            assert(!is_halt(*timetable, *journey, at as int));
            at += 1;
        }
        None
    }

    /// The section as it is handed out: with the places of its two stops and,
    /// for a ride, the instants at which it leaves and arrives.
    pub open spec fn to_route_section_result_spec(self, timetable: Timetable) -> RouteSectionResult {
        RouteSectionResult {
            journey_id: self.journey_id,
            departure_stop_id: self.departure_stop_id,
            departure_stop_lv95_coordinates: if timetable.has_stop(self.departure_stop_id) {
                timetable.stop(self.departure_stop_id).lv95_coordinates
            } else {
                None
            },
            departure_stop_wgs84_coordinates: if timetable.has_stop(self.departure_stop_id) {
                timetable.stop(self.departure_stop_id).wgs84_coordinates
            } else {
                None
            },
            arrival_stop_id: self.arrival_stop_id,
            arrival_stop_lv95_coordinates: if timetable.has_stop(self.arrival_stop_id) {
                timetable.stop(self.arrival_stop_id).lv95_coordinates
            } else {
                None
            },
            arrival_stop_wgs84_coordinates: if timetable.has_stop(self.arrival_stop_id) {
                timetable.stop(self.arrival_stop_id).wgs84_coordinates
            } else {
                None
            },
            departure_at: match self.journey_id {
                Some(id) => timetable.journey(id).departure_at_with_origin_spec(
                    self.departure_stop_id,
                    self.arrival_at.date,
                    false,
                    self.arrival_stop_id,
                ),
                None => None,
            },
            arrival_at: if self.journey_id.is_some() {
                Some(self.arrival_at)
            } else {
                None
            },
            duration: self.duration,
        }
    }

    /// The section as it is handed out.
    pub fn to_route_section_result(&self, timetable: &Timetable) -> (result: RouteSectionResult)
        requires
            timetable.wf(),
            self.fits(*timetable),
        ensures
            result == self.to_route_section_result_spec(*timetable),
            self.is_ride() ==> result.departure_at.is_some() && result.arrival_at.is_some(),
    {
        let (departure_lv95, departure_wgs84) = match timetable.find_stop(self.departure_stop_id) {
            Some(stop) => (stop.lv95_coordinates, stop.wgs84_coordinates),
            None => (None, None),
        };
        let (arrival_lv95, arrival_wgs84) = match timetable.find_stop(self.arrival_stop_id) {
            Some(stop) => (stop.lv95_coordinates, stop.wgs84_coordinates),
            None => (None, None),
        };
        let (departure_at, arrival_at) = match self.journey(timetable) {
            Some(journey) => {
                proof {
                    lemma_first_position(journey.stop_ids(), self.departure_stop_id, 0);
                    lemma_first_position(journey.stop_ids(), self.arrival_stop_id, 1);
                }
                (
                    journey.departure_at_of_with_origin(
                        self.departure_stop_id,
                        self.arrival_at.date(),
                        false,
                        self.arrival_stop_id,
                    ),
                    Some(self.arrival_at),
                )
            },
            None => (None, None),
        };
        RouteSectionResult::new(
            self.journey_id,
            self.departure_stop_id,
            departure_lv95,
            departure_wgs84,
            self.arrival_stop_id,
            arrival_lv95,
            arrival_wgs84,
            departure_at,
            arrival_at,
            self.duration,
        )
    }
}

/// What a [`RouteResult`] holds.
pub struct RouteResultView {
    pub departure_at: DateTime,
    pub arrival_at: DateTime,
    pub sections: Seq<RouteSectionResult>,
}

impl View for RouteResult {
    type V = RouteResultView;

    open spec fn view(&self) -> RouteResultView {
        RouteResultView {
            departure_at: self.departure_at,
            arrival_at: self.arrival_at,
            sections: self.sections@,
        }
    }
}

impl RouteView {
    /// Whether the route has a ride.
    pub open spec fn has_ride(self) -> bool {
        exists|i: int| 0 <= i < self.sections.len() && (#[trigger] self.sections[i]).is_ride()
    }

    /// The sections as they are handed out.
    pub open spec fn section_results(self, timetable: Timetable) -> Seq<RouteSectionResult> {
        self.sections.map_values(
            |section: RouteSection| section.to_route_section_result_spec(timetable),
        )
    }

    /// The route as it is handed out: from the departure of its first ride to
    /// the arrival at its last stop, on foot or by a ride.
    pub open spec fn to_route_result_spec(self, timetable: Timetable) -> RouteResultView {
        let sections = self.section_results(timetable);
        RouteResultView {
            departure_at: if sections[0].journey_id.is_none() {
                sections[1].departure_at.unwrap()
            } else {
                sections[0].departure_at.unwrap()
            },
            arrival_at: self.arrival_at(),
            sections,
        }
    }
}

impl Route {
    /// The route with the next ride on the journey `journey_id` from the stop
    /// at which it has arrived. `date` is the day on which the journey leaves
    /// that stop (with `is_departure_date`) or arrives there (without).
    pub fn extend(
        &self,
        timetable: &Timetable,
        journey_id: i32,
        date: Date,
        is_departure_date: bool,
    ) -> (extended: Option<Route>)
        requires
            timetable.wf(),
            self@.sections.len() > 0,
            timetable.has_journey(journey_id),
            i32::MIN < date.days < i32::MAX,
        ensures
            extended.is_some() == extend_spec(
                *timetable,
                self@,
                journey_id,
                date,
                is_departure_date,
            ).is_some(),
            extended matches Some(route) ==> Some(route@) == extend_spec(
                *timetable,
                self@,
                journey_id,
                date,
                is_departure_date,
            ),
    {
        let journey = match timetable.find_journey(journey_id) {
            Some(journey) => journey,
            None => { return None; },
        };
        if journey.is_last_stop(self.arrival_stop_id(), false) {
            return None;
        }
        let is_same_journey: bool = match self.last_section().journey_id() {
            Some(id) => id == journey_id,
            None => false,
        };
        match RouteSection::find_next(
            timetable,
            journey,
            self.arrival_stop_id(),
            date,
            is_departure_date,
        ) {
            Some((new_section, new_visited_stops)) => {
                if self.has_visited_any_stops(&new_visited_stops) && new_section.arrival_stop_id()
                    != journey.first_stop_id() {
                    return None;
                }
                Some(clone_update_route(self, new_section, is_same_journey, &new_visited_stops))
            },
            None => None,
        }
    }

    /// The sections as they are handed out.
    fn section_results(&self, timetable: &Timetable) -> (sections: Vec<RouteSectionResult>)
        requires
            timetable.wf(),
            forall|i: int|
                0 <= i < self@.sections.len() ==> (#[trigger] self@.sections[i]).fits(*timetable),
        ensures
            sections@ == self@.section_results(*timetable),
    {
        let mut sections: Vec<RouteSectionResult> = Vec::new();
        let mut at: usize = 0;
        while at < self.sections.len()
            invariant
                at <= self@.sections.len(),
                timetable.wf(),
                forall|i: int|
                    0 <= i < self@.sections.len() ==> (#[trigger] self@.sections[i]).fits(
                        *timetable,
                    ),
                sections@ == self@.section_results(*timetable).take(at as int),
            decreases self@.sections.len() - at,
        {
            let section = &self.sections[at];
            assert(self@.sections[at as int].fits(*timetable));
            sections.push(section.to_route_section_result(timetable));
            assert(self@.section_results(*timetable).take(at + 1) == self@.section_results(
                *timetable,
            ).take(at as int).push(section.to_route_section_result_spec(*timetable)));
            at += 1;
        }
        assert(self@.section_results(*timetable).take(at as int) == self@.section_results(
            *timetable,
        ));
        sections
    }

    /// The route as it is handed out.
    pub fn to_route_result(&self, timetable: &Timetable) -> (result: RouteResult)
        requires
            timetable.wf(),
            self@.fits(*timetable),
            self@.has_ride(),
        ensures
            result@ == self@.to_route_result_spec(*timetable),
    {
        let sections = self.section_results(timetable);
        proof {
            lemma_rides_at_the_ends(*timetable, self@);
        }
        let departure_at = if sections[0].is_walking_trip() {
            sections[1].departure_at().unwrap()
        } else {
            sections[0].departure_at().unwrap()
        };
        RouteResult::new(departure_at, self.arrival_at(), sections)
    }
}

/// A ride that fits the timetable is handed out with the instants at which it
/// leaves and arrives.
pub proof fn lemma_ride_result_has_instants(timetable: Timetable, section: RouteSection)
    requires
        timetable.wf(),
        section.fits(timetable),
        section.is_ride(),
    ensures
        section.to_route_section_result_spec(timetable).departure_at.is_some(),
        section.to_route_section_result_spec(timetable).arrival_at == Some(section.arrival_at),
{
    let journey = timetable.journey(section.journey_id.unwrap());
    assert(journey.wf());
    lemma_first_position(journey.stop_ids(), section.departure_stop_id, 0);
    lemma_first_position(journey.stop_ids(), section.arrival_stop_id, 1);
    let from = journey.departure_position(section.departure_stop_id);
    assert(journey.route@[from].departure_time.is_some());
}

/// A route with a ride begins with a ride or with a walk and a ride, and that
/// ride is handed out with the instant at which it leaves.
pub proof fn lemma_rides_at_the_ends(timetable: Timetable, route: RouteView)
    requires
        timetable.wf(),
        route.fits(timetable),
        route.has_ride(),
    ensures
        route.section_results(timetable).len() == route.sections.len(),
        route.sections.len() >= 1,
        ({
            let sections = route.section_results(timetable);
            &&& sections[0].journey_id.is_some() ==> sections[0].departure_at.is_some()
            &&& sections[0].journey_id.is_none() ==> sections.len() >= 2
                && sections[1].departure_at.is_some()
        }),
{
    let witness = choose|i: int| 0 <= i < route.sections.len() && (#[trigger] route.sections[i]).is_ride();
    assert(route.sections[0].fits(timetable));
    if route.sections[0].is_ride() {
        lemma_ride_result_has_instants(timetable, route.sections[0]);
    } else {
        assert(route.rides_at(0));
        assert(route.sections[1].fits(timetable));
        lemma_ride_result_has_instants(timetable, route.sections[1]);
    }
}

} // verus!
