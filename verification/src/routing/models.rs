//! The values that the journey search works on and the values that it
//! returns.
use crate::collections::{set_clone, set_is_disjoint};
use crate::timetable::{Journey, Timetable};
use crate::utils::DateTime;
use rustc_hash::FxHashSet;
use vstd::prelude::*;

verus! {

/// One leg of a route: a ride on a journey, or a walk between two stops.
#[derive(Clone, Copy, Debug, PartialEq, Eq, Structural)]
pub struct RouteSection {
    /// The journey of a ride; `None` for a walk.
    pub journey_id: Option<i32>,
    pub departure_stop_id: i32,
    pub arrival_stop_id: i32,
    pub arrival_at: DateTime,
    /// Minutes on foot; `None` for a ride.
    pub duration: Option<i16>,
}

impl RouteSection {
    pub fn new(
        journey_id: Option<i32>,
        departure_stop_id: i32,
        arrival_stop_id: i32,
        arrival_at: DateTime,
        duration: Option<i16>,
    ) -> (section: Self)
        ensures
            section == (RouteSection {
                journey_id,
                departure_stop_id,
                arrival_stop_id,
                arrival_at,
                duration,
            }),
    {
        Self { journey_id, departure_stop_id, arrival_stop_id, arrival_at, duration }
    }

    pub fn journey_id(&self) -> (journey_id: Option<i32>)
        ensures
            journey_id == self.journey_id,
    {
        self.journey_id
    }

    pub fn departure_stop_id(&self) -> (stop_id: i32)
        ensures
            stop_id == self.departure_stop_id,
    {
        self.departure_stop_id
    }

    pub fn arrival_stop_id(&self) -> (stop_id: i32)
        ensures
            stop_id == self.arrival_stop_id,
    {
        self.arrival_stop_id
    }

    pub fn set_arrival_stop_id(&mut self, value: i32)
        ensures
            *final(self) == (RouteSection { arrival_stop_id: value, ..*old(self) }),
    {
        self.arrival_stop_id = value;
    }

    pub fn arrival_at(&self) -> (arrival_at: DateTime)
        ensures
            arrival_at == self.arrival_at,
    {
        self.arrival_at
    }

    pub fn set_arrival_at(&mut self, value: DateTime)
        ensures
            *final(self) == (RouteSection { arrival_at: value, ..*old(self) }),
    {
        self.arrival_at = value;
    }

    pub fn duration(&self) -> (duration: Option<i16>)
        ensures
            duration == self.duration,
    {
        self.duration
    }

    /// Whether the section is a ride.
    pub open spec fn is_ride(self) -> bool {
        self.journey_id.is_some()
    }

    /// The journey of a ride.
    pub fn journey<'a>(&self, timetable: &'a Timetable) -> (journey: Option<&'a Journey>)
        requires
            timetable.wf(),
            self.journey_id matches Some(id) ==> timetable.has_journey(id),
        ensures
            journey.is_some() == self.journey_id.is_some(),
            journey matches Some(j) ==> *j == timetable.journey(self.journey_id.unwrap()) && j.wf()
                && j.id == self.journey_id.unwrap(),
    {
        match self.journey_id {
            Some(id) => timetable.find_journey(id),
            None => None,
        }
    }
}

/// A route as the search holds it: its sections in order, and the stops that
/// it has been at.
#[derive(Debug)]
pub struct Route {
    pub sections: Vec<RouteSection>,
    pub visited_stops: FxHashSet<i32>,
}

/// What a [`Route`] holds.
pub struct RouteView {
    pub sections: Seq<RouteSection>,
    pub visited_stops: Set<i32>,
}

impl View for Route {
    type V = RouteView;

    open spec fn view(&self) -> RouteView {
        RouteView { sections: self.sections@, visited_stops: self.visited_stops@ }
    }
}

impl RouteView {
    /// A route has a section, and every section arrives at a time of day.
    pub open spec fn wf(self) -> bool {
        &&& self.sections.len() > 0
        &&& forall|i: int| 0 <= i < self.sections.len() ==> (#[trigger] self.sections[i]).arrival_at.wf()
    }

    pub open spec fn last_section(self) -> RouteSection {
        self.sections[self.sections.len() - 1]
    }

    pub open spec fn arrival_stop_id(self) -> i32 {
        self.last_section().arrival_stop_id
    }

    pub open spec fn arrival_at(self) -> DateTime {
        self.last_section().arrival_at
    }

    /// The rides of the route, in order.
    pub open spec fn rides(self) -> Seq<RouteSection> {
        self.sections.filter(|section: RouteSection| section.is_ride())
    }
}

impl Clone for Route {
    fn clone(&self) -> (copy: Self)
        ensures
            copy@ == self@,
    {
        Route { sections: self.sections.clone(), visited_stops: set_clone(&self.visited_stops) }
    }
}

impl Route {
    pub fn new(sections: Vec<RouteSection>, visited_stops: FxHashSet<i32>) -> (route: Self)
        ensures
            route.sections == sections,
            route.visited_stops == visited_stops,
    {
        Self { sections, visited_stops }
    }

    pub fn sections(&self) -> (sections: &Vec<RouteSection>)
        ensures
            *sections == self.sections,
    {
        &self.sections
    }

    pub fn visited_stops(&self) -> (visited_stops: &FxHashSet<i32>)
        ensures
            *visited_stops == self.visited_stops,
    {
        &self.visited_stops
    }

    pub fn last_section(&self) -> (section: &RouteSection)
        requires
            self.sections@.len() > 0,
        ensures
            *section == self@.last_section(),
    {
        &self.sections[self.sections.len() - 1]
    }

    /// The last section, to be changed in place.
    pub fn last_section_mut(&mut self) -> (section: &mut RouteSection)
        requires
            old(self).sections@.len() > 0,
        ensures
            *section == old(self)@.last_section(),
            final(self)@.visited_stops == old(self)@.visited_stops,
            final(self)@.sections == old(self)@.sections.update(
                old(self)@.sections.len() - 1,
                *final(section),
            ),
    {
        let last: usize = self.sections.len() - 1;
        &mut self.sections[last]
    }

    /// Replaces the end of the last section: the stop at which it arrives and
    /// the instant of the arrival.
    pub fn set_last_arrival(&mut self, arrival_stop_id: i32, arrival_at: DateTime)
        requires
            old(self).sections@.len() > 0,
        ensures
            final(self)@.visited_stops == old(self)@.visited_stops,
            final(self)@.sections == old(self)@.sections.update(
                old(self)@.sections.len() - 1,
                RouteSection { arrival_stop_id, arrival_at, ..old(self)@.last_section() },
            ),
    {
        let last: usize = self.sections.len() - 1;
        let section = self.sections[last];
        self.sections.set(
            last,
            RouteSection {
                journey_id: section.journey_id,
                departure_stop_id: section.departure_stop_id,
                arrival_stop_id,
                arrival_at,
                duration: section.duration,
            },
        );
    }

    pub fn arrival_stop_id(&self) -> (stop_id: i32)
        requires
            self.sections@.len() > 0,
        ensures
            stop_id == self@.arrival_stop_id(),
    {
        self.last_section().arrival_stop_id()
    }

    pub fn arrival_at(&self) -> (arrival_at: DateTime)
        requires
            self.sections@.len() > 0,
        ensures
            arrival_at == self@.arrival_at(),
    {
        self.last_section().arrival_at()
    }

    /// Whether the route has been at one of `stops`.
    pub fn has_visited_any_stops(&self, stops: &FxHashSet<i32>) -> (visited: bool)
        ensures
            visited == !self@.visited_stops.disjoint(stops@),
    {
        !set_is_disjoint(&self.visited_stops, stops)
    }

    /// The rides of the route, in order.
    pub fn sections_having_journey(&self) -> (rides: Vec<RouteSection>)
        ensures
            rides@ == self@.rides(),
    {
        let mut rides: Vec<RouteSection> = Vec::new();
        let mut at: usize = 0;
        while at < self.sections.len()
            invariant
                at <= self.sections@.len(),
                rides@ == self.sections@.take(at as int).filter(
                    |section: RouteSection| section.is_ride(),
                ),
            decreases self.sections@.len() - at,
        {
            let section = self.sections[at];
            proof {
                let pred = |section: RouteSection| section.is_ride();
                assert(self.sections@.take(at + 1) == self.sections@.take(at as int).push(section));
                self.sections@.take(at as int).lemma_filter_push(section, pred);
            }
            if section.journey_id.is_some() {
                rides.push(section);
            }
            at += 1;
        }
        assert(self.sections@.take(at as int) == self.sections@);
        rides
    }

    /// Number of rides of the route.
    pub fn count_connections(&self) -> (count: usize)
        ensures
            count == self@.rides().len(),
    {
        self.sections_having_journey().len()
    }
}

/// What a search is to find.
#[derive(Copy, Clone, Eq, PartialEq, Structural, Debug)]
pub enum RoutingAlgorithmMode {
    /// The best route to one stop.
    SolveFromDepartureStopToArrivalStop,
    /// The best route to every stop that can be reached until a given instant.
    SolveFromDepartureStopToReachableArrivalStops,
}

/// What a search is to find, with the stop or the instant that goes with it.
#[derive(Copy, Clone, Debug)]
pub struct RoutingAlgorithmArgs {
    pub mode: RoutingAlgorithmMode,
    pub arrival_stop_id: Option<i32>,
    pub time_limit: Option<DateTime>,
}

impl RoutingAlgorithmArgs {
    /// The mode has what it needs: a stop, or an instant.
    pub open spec fn wf(self) -> bool {
        match self.mode {
            RoutingAlgorithmMode::SolveFromDepartureStopToArrivalStop => self.arrival_stop_id.is_some(),
            RoutingAlgorithmMode::SolveFromDepartureStopToReachableArrivalStops => {
                self.time_limit matches Some(limit) && limit.wf()
            },
        }
    }

    /// A search for the best route to one stop.
    pub open spec fn spec_to_arrival_stop(arrival_stop_id: i32) -> RoutingAlgorithmArgs {
        RoutingAlgorithmArgs {
            mode: RoutingAlgorithmMode::SolveFromDepartureStopToArrivalStop,
            arrival_stop_id: Some(arrival_stop_id),
            time_limit: None,
        }
    }

    /// A search for the best route to every stop that can be reached by
    /// `time_limit`.
    pub open spec fn spec_to_reachable_stops(time_limit: DateTime) -> RoutingAlgorithmArgs {
        RoutingAlgorithmArgs {
            mode: RoutingAlgorithmMode::SolveFromDepartureStopToReachableArrivalStops,
            arrival_stop_id: None,
            time_limit: Some(time_limit),
        }
    }

    pub fn new(
        mode: RoutingAlgorithmMode,
        arrival_stop_id: Option<i32>,
        time_limit: Option<DateTime>,
    ) -> (args: Self)
        ensures
            args == (RoutingAlgorithmArgs { mode, arrival_stop_id, time_limit }),
    {
        Self { mode, arrival_stop_id, time_limit }
    }

    pub fn solve_from_departure_stop_to_arrival_stop(arrival_stop_id: i32) -> (args: Self)
        ensures
            args == Self::spec_to_arrival_stop(arrival_stop_id),
    {
        Self::new(
            RoutingAlgorithmMode::SolveFromDepartureStopToArrivalStop,
            Some(arrival_stop_id),
            None,
        )
    }

    pub fn solve_from_departure_stop_to_reachable_arrival_stops(time_limit: DateTime) -> (args:
        Self)
        ensures
            args == Self::spec_to_reachable_stops(time_limit),
    {
        Self::new(
            RoutingAlgorithmMode::SolveFromDepartureStopToReachableArrivalStops,
            None,
            Some(time_limit),
        )
    }

    pub fn mode(&self) -> (mode: RoutingAlgorithmMode)
        ensures
            mode == self.mode,
    {
        self.mode
    }

    /// The stop to reach.
    pub fn arrival_stop_id(&self) -> (stop_id: i32)
        requires
            self.arrival_stop_id.is_some(),
        ensures
            Some(stop_id) == self.arrival_stop_id,
    {
        self.arrival_stop_id.unwrap()
    }

    /// The instant until which stops are to be reached.
    pub fn time_limit(&self) -> (time_limit: DateTime)
        requires
            self.time_limit.is_some(),
        ensures
            Some(time_limit) == self.time_limit,
    {
        self.time_limit.unwrap()
    }
}

/// One leg of a route as the search returns it.
#[derive(Clone, Copy, Debug)]
pub struct RouteSectionResult {
    pub journey_id: Option<i32>,
    pub departure_stop_id: i32,
    pub departure_stop_lv95_coordinates: Option<hrdf_parser::Coordinates>,
    pub departure_stop_wgs84_coordinates: Option<hrdf_parser::Coordinates>,
    pub arrival_stop_id: i32,
    pub arrival_stop_lv95_coordinates: Option<hrdf_parser::Coordinates>,
    pub arrival_stop_wgs84_coordinates: Option<hrdf_parser::Coordinates>,
    /// Instant at which a ride leaves; `None` for a walk.
    pub departure_at: Option<DateTime>,
    /// Instant at which a ride arrives; `None` for a walk.
    pub arrival_at: Option<DateTime>,
    /// Minutes on foot; `None` for a ride.
    pub duration: Option<i16>,
}

impl RouteSectionResult {
    pub fn new(
        journey_id: Option<i32>,
        departure_stop_id: i32,
        departure_stop_lv95_coordinates: Option<hrdf_parser::Coordinates>,
        departure_stop_wgs84_coordinates: Option<hrdf_parser::Coordinates>,
        arrival_stop_id: i32,
        arrival_stop_lv95_coordinates: Option<hrdf_parser::Coordinates>,
        arrival_stop_wgs84_coordinates: Option<hrdf_parser::Coordinates>,
        departure_at: Option<DateTime>,
        arrival_at: Option<DateTime>,
        duration: Option<i16>,
    ) -> (section: Self)
        ensures
            section == (RouteSectionResult {
                journey_id,
                departure_stop_id,
                departure_stop_lv95_coordinates,
                departure_stop_wgs84_coordinates,
                arrival_stop_id,
                arrival_stop_lv95_coordinates,
                arrival_stop_wgs84_coordinates,
                departure_at,
                arrival_at,
                duration,
            }),
    {
        Self {
            journey_id,
            departure_stop_id,
            departure_stop_lv95_coordinates,
            departure_stop_wgs84_coordinates,
            arrival_stop_id,
            arrival_stop_lv95_coordinates,
            arrival_stop_wgs84_coordinates,
            departure_at,
            arrival_at,
            duration,
        }
    }

    pub fn journey_id(&self) -> (journey_id: Option<i32>)
        ensures
            journey_id == self.journey_id,
    {
        self.journey_id
    }

    pub fn departure_stop_id(&self) -> (stop_id: i32)
        ensures
            stop_id == self.departure_stop_id,
    {
        self.departure_stop_id
    }

    pub fn departure_at(&self) -> (departure_at: Option<DateTime>)
        ensures
            departure_at == self.departure_at,
    {
        self.departure_at
    }

    pub fn arrival_stop_id(&self) -> (stop_id: i32)
        ensures
            stop_id == self.arrival_stop_id,
    {
        self.arrival_stop_id
    }

    pub fn arrival_stop_lv95_coordinates(&self) -> (coordinates: Option<hrdf_parser::Coordinates>)
        ensures
            coordinates == self.arrival_stop_lv95_coordinates,
    {
        self.arrival_stop_lv95_coordinates
    }

    pub fn arrival_at(&self) -> (arrival_at: Option<DateTime>)
        ensures
            arrival_at == self.arrival_at,
    {
        self.arrival_at
    }

    pub fn duration(&self) -> (duration: Option<i16>)
        ensures
            duration == self.duration,
    {
        self.duration
    }

    /// The journey of a ride.
    pub fn journey<'a>(&self, timetable: &'a Timetable) -> (journey: Option<&'a Journey>)
        requires
            timetable.wf(),
            self.journey_id matches Some(id) ==> timetable.has_journey(id),
        ensures
            journey.is_some() == self.journey_id.is_some(),
            journey matches Some(j) ==> *j == timetable.journey(self.journey_id.unwrap()) && j.wf()
                && j.id == self.journey_id.unwrap(),
    {
        match self.journey_id {
            Some(id) => timetable.find_journey(id),
            None => None,
        }
    }

    pub fn is_walking_trip(&self) -> (walking: bool)
        ensures
            walking == self.journey_id.is_none(),
    {
        self.journey_id.is_none()
    }
}

/// A route as the search returns it.
#[derive(Debug)]
pub struct RouteResult {
    /// Instant at which the first ride leaves.
    pub departure_at: DateTime,
    /// Instant at which the route arrives at its last stop, on foot or by a
    /// ride.
    pub arrival_at: DateTime,
    pub sections: Vec<RouteSectionResult>,
}

impl RouteResult {
    pub fn new(departure_at: DateTime, arrival_at: DateTime, sections: Vec<RouteSectionResult>) -> (route:
        Self)
        ensures
            route.departure_at == departure_at,
            route.arrival_at == arrival_at,
            route.sections == sections,
    {
        Self { departure_at, arrival_at, sections }
    }

    pub fn departure_at(&self) -> (departure_at: DateTime)
        ensures
            departure_at == self.departure_at,
    {
        self.departure_at
    }

    pub fn arrival_at(&self) -> (arrival_at: DateTime)
        ensures
            arrival_at == self.arrival_at,
    {
        self.arrival_at
    }

    pub fn sections(&self) -> (sections: &Vec<RouteSectionResult>)
        ensures
            *sections == self.sections,
    {
        &self.sections
    }
}

} // verus!
