//! The timetable that every query reads: stops, journeys, walking links
//! between stops, calendars and exchange times.
//!
//! A [`Timetable`] is built once, by [`Timetable::new`], and never changed.
//! Its wellformedness ([`Timetable::wf`]) is what the journey search relies on
//! where it follows a reference from one record to another.
use crate::collections::map_get;
use crate::utils::{Date, Time};
use rustc_hash::FxHashMap;
use vstd::prelude::*;

verus! {

/// Days that every date of a timetable keeps from the first and the last day
/// number that a [`Date`] can hold.
pub const DATE_MARGIN: i32 = 64;

/// A point in one of the two coordinate frames, as `hrdf_parser` holds it. The
/// search carries such points from the stops to its results and never looks
/// inside.
#[verifier::external_type_specification]
#[verifier::external_body]
pub struct ExCoordinates(hrdf_parser::Coordinates);

/// A place where journeys call.
pub struct Stop {
    pub id: i32,
    pub name: String,
    pub lv95_coordinates: Option<hrdf_parser::Coordinates>,
    pub wgs84_coordinates: Option<hrdf_parser::Coordinates>,
    /// Whether passengers can change here.
    pub exchange_point: bool,
    /// Minutes needed to change here: between two intercity journeys, and
    /// between any other two.
    pub exchange_time: Option<(i16, i16)>,
}

/// One call of a journey at a stop.
#[derive(Clone, Copy, Debug, PartialEq, Eq, Structural)]
pub struct JourneyRouteEntry {
    pub stop_id: i32,
    pub arrival_time: Option<Time>,
    pub departure_time: Option<Time>,
}

/// One run of a vehicle along its stops.
pub struct Journey {
    pub id: i32,
    /// Tag of the operator.
    pub administration: String,
    /// Short name of the kind of transport, such as `IC`.
    pub transport_designation: String,
    /// The calendar of the days on which the journey runs; 0 stands for every
    /// day of the timetable.
    pub bit_field_id: i32,
    pub route: Vec<JourneyRouteEntry>,
}

/// A walk from one stop to another.
#[derive(Clone, Copy, Debug, PartialEq, Eq, Structural)]
pub struct StopConnection {
    pub stop_id_1: i32,
    pub stop_id_2: i32,
    /// Minutes on foot.
    pub duration: i16,
}

/// A calendar: one entry per day of the timetable, after two entries that
/// stand for no day. An entry of 1 marks a day on which the calendar holds.
pub struct BitField {
    pub id: i32,
    pub bits: Vec<u8>,
}

/// Minutes needed at a stop to change from one given journey to another.
#[derive(Clone, Copy, Debug, PartialEq, Eq, Structural)]
pub struct ExchangeTimeJourney {
    pub stop_id: i32,
    pub journey_id_1: i32,
    pub journey_id_2: i32,
    pub duration: i16,
    /// The calendar of the days on which the entry holds; `None` for every day.
    pub bit_field_id: Option<i32>,
}

/// Minutes needed to change from a journey of one operator to a journey of
/// another, at one stop or, without a stop, anywhere.
pub struct ExchangeTimeAdministration {
    pub stop_id: Option<i32>,
    pub administration_1: String,
    pub administration_2: String,
    pub duration: i16,
}

/// The records of a timetable, and for each kind of record the place of each
/// identifier.
pub struct Timetable {
    pub stops: Vec<Stop>,
    pub journeys: Vec<Journey>,
    pub stop_connections: Vec<StopConnection>,
    pub bit_fields: Vec<BitField>,
    pub exchange_times_journey: Vec<ExchangeTimeJourney>,
    pub exchange_times_administration: Vec<ExchangeTimeAdministration>,
    /// Minutes needed to change where nothing more specific is known: between
    /// two intercity journeys, and between any other two.
    pub default_exchange_time: (i16, i16),
    /// First day of the timetable.
    pub start_date: Date,
    /// Last day of the timetable.
    pub end_date: Date,
    /// Place of each stop in `stops`.
    pub stop_positions: FxHashMap<i32, usize>,
    /// Place of each journey in `journeys`.
    pub journey_positions: FxHashMap<i32, usize>,
    /// Place of each calendar in `bit_fields`.
    pub bit_field_positions: FxHashMap<i32, usize>,
    /// For each stop, the places in `journeys` of the journeys that call there.
    pub journeys_by_stop: FxHashMap<i32, Vec<usize>>,
    /// For each stop, the places in `stop_connections` of the walks that leave it.
    pub connections_by_stop: FxHashMap<i32, Vec<usize>>,
}

/// Least index from `from` on at which `stops` holds `stop_id`; the length of
/// `stops` where there is none.
pub open spec fn first_position(stops: Seq<i32>, stop_id: i32, from: int) -> int
    decreases stops.len() - from,
{
    if from < 0 || from >= stops.len() {
        stops.len() as int
    } else if stops[from] == stop_id {
        from
    } else {
        first_position(stops, stop_id, from + 1)
    }
}

/// What [`first_position`] finds is the first match, and nothing else is one
/// before it.
pub proof fn lemma_first_position(stops: Seq<i32>, stop_id: i32, from: int)
    requires
        0 <= from,
    ensures
        from <= first_position(stops, stop_id, from) || first_position(stops, stop_id, from)
            == stops.len(),
        first_position(stops, stop_id, from) <= stops.len(),
        first_position(stops, stop_id, from) < stops.len() ==> stops[first_position(
            stops,
            stop_id,
            from,
        )] == stop_id,
        forall|i: int| from <= i < first_position(stops, stop_id, from) ==> stops[i] != stop_id,
    decreases stops.len() - from,
{
    if from < stops.len() && stops[from] != stop_id {
        lemma_first_position(stops, stop_id, from + 1);
    }
}

impl JourneyRouteEntry {
    pub open spec fn wf(self) -> bool {
        &&& self.arrival_time matches Some(t) ==> t.wf()
        &&& self.departure_time matches Some(t) ==> t.wf()
    }
}

impl Journey {
    /// The stops of the journey, in the order in which it calls at them.
    pub open spec fn stop_ids(self) -> Seq<i32> {
        self.route@.map_values(|entry: JourneyRouteEntry| entry.stop_id)
    }

    /// No stop occurs twice, but that the journey may end where it began.
    pub open spec fn is_simple(self) -> bool {
        forall|i: int, j: int|
            0 <= i < j < self.route@.len() && #[trigger] self.route@[i].stop_id
                == #[trigger] self.route@[j].stop_id ==> i == 0 && j == self.route@.len() - 1
    }

    /// A journey calls at two stops or more; it leaves every stop but the last
    /// and arrives at every stop but the first at a stated time.
    pub open spec fn wf(self) -> bool {
        &&& 2 <= self.route@.len() < usize::MAX
        &&& self.is_simple()
        &&& forall|i: int| 0 <= i < self.route@.len() ==> (#[trigger] self.route@[i]).wf()
        &&& forall|i: int|
            1 <= i < self.route@.len() ==> (#[trigger] self.route@[i]).arrival_time.is_some()
        &&& forall|i: int|
            0 <= i < self.route@.len() - 1 ==> (#[trigger] self.route@[i]).departure_time.is_some()
    }

    pub open spec fn first_stop(self) -> i32 {
        self.route@[0].stop_id
    }

    pub open spec fn last_stop(self) -> i32 {
        self.route@[self.route@.len() - 1].stop_id
    }

    /// Index of the first call at `stop_id`; the length of the route where the
    /// journey does not call there.
    pub open spec fn departure_position(self, stop_id: i32) -> int {
        first_position(self.stop_ids(), stop_id, 0)
    }

    /// Index of the first call at `stop_id` after the journey's first stop; the
    /// length of the route where there is none.
    pub open spec fn arrival_position(self, stop_id: i32) -> int {
        first_position(self.stop_ids(), stop_id, 1)
    }

    pub open spec fn calls_at(self, stop_id: i32) -> bool {
        self.departure_position(stop_id) < self.route@.len()
    }
}

impl Timetable {
    pub open spec fn has_stop(self, stop_id: i32) -> bool {
        self.stop_positions@.contains_key(stop_id)
    }

    /// The stop with the given identifier.
    pub open spec fn stop(self, stop_id: i32) -> Stop {
        self.stops@[self.stop_positions@[stop_id] as int]
    }

    pub open spec fn has_journey(self, journey_id: i32) -> bool {
        self.journey_positions@.contains_key(journey_id)
    }

    /// The journey with the given identifier.
    pub open spec fn journey(self, journey_id: i32) -> Journey {
        self.journeys@[self.journey_positions@[journey_id] as int]
    }

    pub open spec fn has_bit_field(self, bit_field_id: i32) -> bool {
        self.bit_field_positions@.contains_key(bit_field_id)
    }

    /// The calendar with the given identifier.
    pub open spec fn bit_field(self, bit_field_id: i32) -> BitField {
        self.bit_fields@[self.bit_field_positions@[bit_field_id] as int]
    }

    /// Places in `journeys` of the journeys that call at the stop.
    pub open spec fn journeys_at(self, stop_id: i32) -> Seq<usize> {
        if self.journeys_by_stop@.contains_key(stop_id) {
            self.journeys_by_stop@[stop_id]@
        } else {
            Seq::empty()
        }
    }

    /// Places in `stop_connections` of the walks that leave the stop.
    pub open spec fn connections_at(self, stop_id: i32) -> Seq<usize> {
        if self.connections_by_stop@.contains_key(stop_id) {
            self.connections_by_stop@[stop_id]@
        } else {
            Seq::empty()
        }
    }

    /// Number of days of the timetable.
    pub open spec fn day_count(self) -> int {
        self.end_date.days - self.start_date.days + 1
    }

    pub open spec fn covers(self, date: Date) -> bool {
        self.start_date.days <= date.days <= self.end_date.days
    }

    /// The records refer to records that exist.
    pub open spec fn records_wf(self) -> bool {
        &&& self.start_date.days <= self.end_date.days
        &&& i32::MIN + DATE_MARGIN <= self.start_date.days
        &&& self.end_date.days <= i32::MAX - DATE_MARGIN
        &&& forall|i: int| 0 <= i < self.journeys@.len() ==> (#[trigger] self.journeys@[i]).wf()
        &&& forall|i: int, k: int|
            0 <= i < self.journeys@.len() && 0 <= k < self.journeys@[i].route@.len()
                ==> self.has_stop((#[trigger] self.journeys@[i].route@[k]).stop_id)
        &&& forall|i: int|
            0 <= i < self.journeys@.len() ==> (#[trigger] self.journeys@[i]).bit_field_id == 0
                || self.has_bit_field(self.journeys@[i].bit_field_id)
        &&& forall|i: int|
            0 <= i < self.bit_fields@.len() ==> (#[trigger] self.bit_fields@[i]).bits@.len() >= 2
                + self.day_count()
        &&& forall|i: int|
            0 <= i < self.exchange_times_journey@.len() ==> (
            #[trigger] self.exchange_times_journey@[i].bit_field_id matches Some(id)
                ==> self.has_bit_field(id))
    }

    /// Each identifier is found where a record with that identifier stands.
    pub open spec fn positions_wf(self) -> bool {
        &&& forall|id: i32| #[trigger]
            self.stop_positions@.contains_key(id) ==> self.stop_positions@[id] < self.stops@.len()
                && self.stops@[self.stop_positions@[id] as int].id == id
        &&& forall|id: i32| #[trigger]
            self.journey_positions@.contains_key(id) ==> self.journey_positions@[id]
                < self.journeys@.len() && self.journeys@[self.journey_positions@[id] as int].id
                == id
        &&& forall|id: i32| #[trigger]
            self.bit_field_positions@.contains_key(id) ==> self.bit_field_positions@[id]
                < self.bit_fields@.len()
                && self.bit_fields@[self.bit_field_positions@[id] as int].id == id
    }

    /// The journeys listed for a stop call there and can be found by their
    /// identifier; the walks listed for a stop leave it.
    pub open spec fn links_wf(self) -> bool {
        &&& forall|stop_id: i32, k: int|
            0 <= k < self.journeys_at(stop_id).len() ==> {
                let place = #[trigger] self.journeys_at(stop_id)[k];
                &&& place < self.journeys@.len()
                &&& self.journeys@[place as int].calls_at(stop_id)
                &&& self.has_journey(self.journeys@[place as int].id)
                &&& self.journey_positions@[self.journeys@[place as int].id] == place
            }
        &&& forall|stop_id: i32, k: int|
            0 <= k < self.connections_at(stop_id).len() ==> {
                let place = #[trigger] self.connections_at(stop_id)[k];
                &&& place < self.stop_connections@.len()
                &&& self.stop_connections@[place as int].stop_id_1 == stop_id
            }
    }

    pub open spec fn wf(self) -> bool {
        &&& self.records_wf()
        &&& self.positions_wf()
        &&& self.links_wf()
    }

    /// The stop with the given identifier, if there is one.
    pub fn find_stop(&self, stop_id: i32) -> (stop: Option<&Stop>)
        requires
            self.wf(),
        ensures
            stop.is_some() == self.has_stop(stop_id),
            stop matches Some(s) ==> *s == self.stop(stop_id) && s.id == stop_id,
    {
        match map_get(&self.stop_positions, stop_id) {
            Some(place) => Some(&self.stops[*place]),
            None => None,
        }
    }

    /// The journey with the given identifier, if there is one.
    pub fn find_journey(&self, journey_id: i32) -> (journey: Option<&Journey>)
        requires
            self.wf(),
        ensures
            journey.is_some() == self.has_journey(journey_id),
            journey matches Some(j) ==> *j == self.journey(journey_id) && j.id == journey_id
                && j.wf(),
    {
        match map_get(&self.journey_positions, journey_id) {
            Some(place) => Some(&self.journeys[*place]),
            None => None,
        }
    }

    /// The calendar with the given identifier, if there is one.
    pub fn find_bit_field(&self, bit_field_id: i32) -> (bit_field: Option<&BitField>)
        requires
            self.wf(),
        ensures
            bit_field.is_some() == self.has_bit_field(bit_field_id),
            bit_field matches Some(b) ==> *b == self.bit_field(bit_field_id) && b.id
                == bit_field_id && b.bits@.len() >= 2 + self.day_count(),
    {
        match map_get(&self.bit_field_positions, bit_field_id) {
            Some(place) => Some(&self.bit_fields[*place]),
            None => None,
        }
    }
}

} // verus!
