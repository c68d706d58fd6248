//! What a journey says of itself: where it begins and ends, when it calls at a
//! stop, and which stops lie between two of its calls.
//!
//! A journey states times of day only. A time that is earlier than the time at
//! which the journey leaves its first stop belongs to the following day; the
//! functions that turn a time into an instant take the day of one call and
//! find the day of another from that.
use crate::timetable::{
    first_position, lemma_first_position, Journey, JourneyRouteEntry, Timetable,
};
use crate::utils::{add_1_day, sub_1_day, Date, DateTime, Time};
use vstd::prelude::*;

verus! {

/// The stops of a route, in the order of its entries.
pub open spec fn stop_ids_of(route: Seq<JourneyRouteEntry>) -> Seq<i32> {
    route.map_values(|entry: JourneyRouteEntry| entry.stop_id)
}

/// Fingerprint of the set of the stops at which a route calls from its first
/// call at `departure_stop_id` on, as `hrdf_parser` computes it; `None` where
/// the route never calls there.
pub uninterp spec fn route_hash(stop_ids: Seq<i32>, departure_stop_id: i32) -> Option<u64>;

/// `hrdf_parser::Journey::hash_route`, on a journey that calls at the stops of
/// `route` in their order.
///
/// Trusted: the fingerprint depends on the sequence of stops and on the stop
/// of departure alone (`hash_route` gathers the stops from the first call at
/// the stop of departure on into an ordered set, and feeds the set of the
/// stops to a hasher that starts from a fixed state; so two routes that call
/// at the same stops in another order have one fingerprint), and there is one
/// exactly if the route calls at the stop of departure.
#[verifier::external_body]
fn hash_route_entries(route: &Vec<JourneyRouteEntry>, departure_stop_id: i32) -> (hash: Option<u64>)
    ensures
        hash == route_hash(stop_ids_of(route@), departure_stop_id),
        hash.is_some() == (first_position(stop_ids_of(route@), departure_stop_id, 0)
            < route@.len()),
{
    let mut journey = hrdf_parser::Journey::new(0, 0, String::new());
    for entry in route.iter() {
        journey.add_route_entry(hrdf_parser::JourneyRouteEntry::new(entry.stop_id, None, None));
    }
    journey.hash_route(departure_stop_id)
}

/// 1 for a call on the day after the journey began, 0 for a call on the day
/// itself.
pub open spec fn day_flag(is_next_day: bool) -> int {
    if is_next_day {
        1
    } else {
        0
    }
}

/// The day reached from `date` by going `shift` days on.
pub open spec fn shifted(date: Date, shift: int) -> Date {
    Date { days: (date.days + shift) as i32 }
}

/// By how many days the day of a call differs from the day of another call of
/// the same journey, given for each whether it falls on the day after the
/// journey began.
pub open spec fn day_shift(is_next_day: bool, origin_is_next_day: bool) -> int {
    if is_next_day && !origin_is_next_day {
        1
    } else if !is_next_day && origin_is_next_day {
        -1
    } else {
        0
    }
}

impl Journey {
    /// Seconds from the midnight before the journey began to its departure
    /// from the call `at`.
    pub open spec fn departure_offset(self, at: int) -> int {
        let time = self.route@[at].departure_time.unwrap();
        time.secs + 86_400 * day_flag(time.secs < self.route@[0].departure_time.unwrap().secs)
    }

    /// Seconds from the midnight before the journey began to its arrival at
    /// the call `at`.
    pub open spec fn arrival_offset(self, at: int) -> int {
        let time = self.route@[at].arrival_time.unwrap();
        time.secs + 86_400 * day_flag(time.secs < self.route@[0].departure_time.unwrap().secs)
    }

    /// The journey arrives at no call before it has left an earlier one.
    pub open spec fn is_chronological(self) -> bool {
        forall|from: int, to: int|
            0 <= from < to < self.route@.len() ==> #[trigger] self.departure_offset(from)
                <= #[trigger] self.arrival_offset(to)
    }

    /// Whether `stop_id` is the stop at which the journey ends. With
    /// `ignore_loop`, a journey that ends where it began has no such stop.
    pub open spec fn is_last_stop_spec(self, stop_id: i32, ignore_loop: bool) -> bool {
        if ignore_loop && self.first_stop() == self.last_stop() {
            false
        } else {
            stop_id == self.last_stop()
        }
    }

    /// Number of calls from the first call at `departure_stop_id` up to the
    /// next call at `arrival_stop_id`, of which one of the two ends is counted.
    pub open spec fn count_stops_spec(self, departure_stop_id: i32, arrival_stop_id: i32) -> int {
        let from = self.departure_position(departure_stop_id);
        first_position(self.stop_ids(), arrival_stop_id, from) - from + 1
    }

    /// Time at which the journey leaves `stop_id`, and whether that is on the
    /// day after it began.
    pub open spec fn departure_time_spec(self, stop_id: i32) -> Option<(Time, bool)> {
        let at = self.departure_position(stop_id);
        if at < self.route@.len() && self.route@[at].departure_time.is_some() {
            let time = self.route@[at].departure_time.unwrap();
            Some((time, time.secs < self.route@[0].departure_time.unwrap().secs))
        } else {
            None
        }
    }

    /// Time at which the journey arrives at `stop_id`, and whether that is on
    /// the day after it began.
    pub open spec fn arrival_time_spec(self, stop_id: i32) -> Option<(Time, bool)> {
        let at = self.arrival_position(stop_id);
        if at < self.route@.len() {
            let time = self.route@[at].arrival_time.unwrap();
            Some((time, time.secs < self.route@[0].departure_time.unwrap().secs))
        } else {
            None
        }
    }

    /// Instant at which the journey that began on `date` leaves `stop_id`.
    pub open spec fn departure_at_spec(self, stop_id: i32, date: Date) -> Option<DateTime> {
        match self.departure_time_spec(stop_id) {
            Some((time, is_next_day)) => Some(
                DateTime { date: shifted(date, if is_next_day { 1 } else { 0 }), time },
            ),
            None => None,
        }
    }

    /// Whether the call at `origin_stop_id` falls on the day after the journey
    /// began: the departure from there, or else the arrival there.
    pub open spec fn origin_is_next_day(self, origin_stop_id: i32, is_departure_date: bool)
        -> Option<bool> {
        let call = if is_departure_date {
            self.departure_time_spec(origin_stop_id)
        } else {
            self.arrival_time_spec(origin_stop_id)
        };
        match call {
            Some((_, is_next_day)) => Some(is_next_day),
            None => None,
        }
    }

    /// Instant at which the journey leaves `stop_id`, where `date` is the day
    /// on which it leaves (or else arrives at) `origin_stop_id`.
    pub open spec fn departure_at_with_origin_spec(
        self,
        stop_id: i32,
        date: Date,
        is_departure_date: bool,
        origin_stop_id: i32,
    ) -> Option<DateTime> {
        match (
            self.departure_time_spec(stop_id),
            self.origin_is_next_day(origin_stop_id, is_departure_date),
        ) {
            (Some((time, is_next_day)), Some(origin_is_next_day)) => Some(
                DateTime { date: shifted(date, day_shift(is_next_day, origin_is_next_day)), time },
            ),
            _ => None,
        }
    }

    /// Instant at which the journey arrives at `stop_id`, where `date` is the
    /// day on which it leaves (or else arrives at) `origin_stop_id`.
    pub open spec fn arrival_at_with_origin_spec(
        self,
        stop_id: i32,
        date: Date,
        is_departure_date: bool,
        origin_stop_id: i32,
    ) -> Option<DateTime> {
        match (
            self.arrival_time_spec(stop_id),
            self.origin_is_next_day(origin_stop_id, is_departure_date),
        ) {
            (Some((time, is_next_day)), Some(origin_is_next_day)) => Some(
                DateTime { date: shifted(date, day_shift(is_next_day, origin_is_next_day)), time },
            ),
            _ => None,
        }
    }

    /// The calls after the first call at `departure_stop_id`, up to and with
    /// the next call at `arrival_stop_id`.
    pub open spec fn route_section_spec(self, departure_stop_id: i32, arrival_stop_id: i32) -> Seq<
        JourneyRouteEntry,
    > {
        let from = self.departure_position(departure_stop_id);
        let to = first_position(self.stop_ids(), arrival_stop_id, from + 1);
        if from >= self.route@.len() {
            Seq::empty()
        } else if to >= self.route@.len() {
            self.route@.subrange(from + 1, self.route@.len() as int)
        } else {
            self.route@.subrange(from + 1, to + 1)
        }
    }

    pub fn first_stop_id(&self) -> (stop_id: i32)
        requires
            self.wf(),
        ensures
            stop_id == self.first_stop(),
    {
        self.route[0].stop_id
    }

    pub fn last_stop_id(&self) -> (stop_id: i32)
        requires
            self.wf(),
        ensures
            stop_id == self.last_stop(),
    {
        self.route[self.route.len() - 1].stop_id
    }

    pub fn is_last_stop(&self, stop_id: i32, ignore_loop: bool) -> (is_last: bool)
        requires
            self.wf(),
        ensures
            is_last == self.is_last_stop_spec(stop_id, ignore_loop),
    {
        if ignore_loop && self.first_stop_id() == self.last_stop_id() {
            false
        } else {
            stop_id == self.last_stop_id()
        }
    }

    /// Index of the first call at `stop_id` from the index `from` on; the
    /// length of the route where there is none.
    pub fn position_from(&self, stop_id: i32, from: usize) -> (position: usize)
        ensures
            position == first_position(self.stop_ids(), stop_id, from as int),
            position <= self.route@.len(),
            position < self.route@.len() ==> from <= position && self.route@[position as int].stop_id
                == stop_id,
    {
        let mut position: usize = from;
        proof {
            lemma_first_position(self.stop_ids(), stop_id, from as int);
        }
        while position < self.route.len() && self.route[position].stop_id != stop_id
            invariant
                from <= position,
                first_position(self.stop_ids(), stop_id, from as int) == first_position(
                    self.stop_ids(),
                    stop_id,
                    position as int,
                ),
            decreases self.route@.len() - position,
        {
            position += 1;
        }
        if position >= self.route.len() {
            self.route.len()
        } else {
            position
        }
    }

    /// Number of calls from the first call at `departure_stop_id` up to the
    /// next call at `arrival_stop_id`, of which one of the two ends is counted.
    pub fn count_stops(&self, departure_stop_id: i32, arrival_stop_id: i32) -> (count: usize)
        requires
            self.route@.len() < usize::MAX,
        ensures
            count == self.count_stops_spec(departure_stop_id, arrival_stop_id),
    {
        let from: usize = self.position_from(departure_stop_id, 0);
        let to: usize = self.position_from(arrival_stop_id, from);
        proof {
            lemma_first_position(self.stop_ids(), arrival_stop_id, from as int);
        }
        to - from + 1
    }

    /// Time at which the journey leaves `stop_id`, and whether that is on the
    /// day after it began; `None` where it does not leave that stop.
    pub fn departure_time_of(&self, stop_id: i32) -> (call: Option<(Time, bool)>)
        requires
            self.wf(),
        ensures
            call == self.departure_time_spec(stop_id),
            call matches Some((time, _)) ==> time.wf(),
    {
        let at: usize = self.position_from(stop_id, 0);
        if at >= self.route.len() {
            return None;
        }
        match (self.route[at].departure_time, self.route[0].departure_time) {
            (Some(time), Some(first)) => Some((time, time.secs < first.secs)),
            _ => None,
        }
    }

    /// Time at which the journey arrives at `stop_id`, and whether that is on
    /// the day after it began; `None` where it does not arrive at that stop.
    pub fn arrival_time_of(&self, stop_id: i32) -> (call: Option<(Time, bool)>)
        requires
            self.wf(),
        ensures
            call == self.arrival_time_spec(stop_id),
            call matches Some((time, _)) ==> time.wf(),
    {
        let at: usize = self.position_from(stop_id, 1);
        if at >= self.route.len() {
            return None;
        }
        match (self.route[at].arrival_time, self.route[0].departure_time) {
            (Some(time), Some(first)) => Some((time, time.secs < first.secs)),
            _ => None,
        }
    }

    /// Instant at which the journey that began on `date` leaves `stop_id`.
    pub fn departure_at_of(&self, stop_id: i32, date: Date) -> (departure_at: Option<DateTime>)
        requires
            self.wf(),
            date.days < i32::MAX,
        ensures
            departure_at == self.departure_at_spec(stop_id, date),
            departure_at matches Some(at) ==> at.wf(),
    {
        match self.departure_time_of(stop_id) {
            Some((time, false)) => Some(DateTime::new(date, time)),
            Some((time, true)) => Some(DateTime::new(add_1_day(date), time)),
            None => None,
        }
    }

    fn origin_call(&self, origin_stop_id: i32, is_departure_date: bool) -> (is_next_day: Option<
        bool,
    >)
        requires
            self.wf(),
        ensures
            is_next_day == self.origin_is_next_day(origin_stop_id, is_departure_date),
    {
        let call = if is_departure_date {
            self.departure_time_of(origin_stop_id)
        } else {
            self.arrival_time_of(origin_stop_id)
        };
        match call {
            Some((_, is_next_day)) => Some(is_next_day),
            None => None,
        }
    }

    fn shift_date(date: Date, is_next_day: bool, origin_is_next_day: bool) -> (day: Date)
        requires
            i32::MIN < date.days < i32::MAX,
        ensures
            day == shifted(date, day_shift(is_next_day, origin_is_next_day)),
    {
        if is_next_day && !origin_is_next_day {
            add_1_day(date)
        } else if !is_next_day && origin_is_next_day {
            sub_1_day(date)
        } else {
            date
        }
    }

    /// Instant at which the journey leaves `stop_id`, where `date` is the day
    /// on which it leaves `origin_stop_id` (with `is_departure_date`) or
    /// arrives there (without). `None` where the journey does not make one of
    /// the two calls.
    pub fn departure_at_of_with_origin(
        &self,
        stop_id: i32,
        date: Date,
        is_departure_date: bool,
        origin_stop_id: i32,
    ) -> (departure_at: Option<DateTime>)
        requires
            self.wf(),
            i32::MIN < date.days < i32::MAX,
        ensures
            departure_at == self.departure_at_with_origin_spec(
                stop_id,
                date,
                is_departure_date,
                origin_stop_id,
            ),
            departure_at matches Some(at) ==> at.wf(),
    {
        match (self.departure_time_of(stop_id), self.origin_call(origin_stop_id, is_departure_date)) {
            (Some((time, is_next_day)), Some(origin_is_next_day)) => Some(
                DateTime::new(Self::shift_date(date, is_next_day, origin_is_next_day), time),
            ),
            _ => None,
        }
    }

    /// Instant at which the journey arrives at `stop_id`, where `date` is the
    /// day on which it leaves `origin_stop_id` (with `is_departure_date`) or
    /// arrives there (without). `None` where the journey does not make one of
    /// the two calls.
    pub fn arrival_at_of_with_origin(
        &self,
        stop_id: i32,
        date: Date,
        is_departure_date: bool,
        origin_stop_id: i32,
    ) -> (arrival_at: Option<DateTime>)
        requires
            self.wf(),
            i32::MIN < date.days < i32::MAX,
        ensures
            arrival_at == self.arrival_at_with_origin_spec(
                stop_id,
                date,
                is_departure_date,
                origin_stop_id,
            ),
            arrival_at matches Some(at) ==> at.wf(),
    {
        match (self.arrival_time_of(stop_id), self.origin_call(origin_stop_id, is_departure_date)) {
            (Some((time, is_next_day)), Some(origin_is_next_day)) => Some(
                DateTime::new(Self::shift_date(date, is_next_day, origin_is_next_day), time),
            ),
            _ => None,
        }
    }

    /// The calls after the first call at `departure_stop_id`, up to and with
    /// the next call at `arrival_stop_id`.
    pub fn route_section(&self, departure_stop_id: i32, arrival_stop_id: i32) -> (section: Vec<
        JourneyRouteEntry,
    >)
        requires
            self.route@.len() < usize::MAX,
        ensures
            section@ == self.route_section_spec(departure_stop_id, arrival_stop_id),
    {
        let mut section: Vec<JourneyRouteEntry> = Vec::new();
        let from: usize = self.position_from(departure_stop_id, 0);
        if from >= self.route.len() {
            return section;
        }
        let to: usize = self.position_from(arrival_stop_id, from + 1);
        let end: usize = if to >= self.route.len() {
            self.route.len()
        } else {
            to + 1
        };
        let mut at: usize = from + 1;
        while at < end
            invariant
                from + 1 <= at <= end <= self.route@.len(),
                section@ == self.route@.subrange(from + 1, at as int),
            decreases end - at,
        {
            section.push(self.route[at]);
            at += 1;
        }
        section
    }

    /// Fingerprint of the part of the route that begins with the first call at
    /// `departure_stop_id`; `None` where the journey never calls there.
    pub fn hash_route(&self, departure_stop_id: i32) -> (hash: Option<u64>)
        ensures
            hash == route_hash(self.stop_ids(), departure_stop_id),
            hash.is_some() == self.calls_at(departure_stop_id),
    {
        hash_route_entries(&self.route, departure_stop_id)
    }
}

impl Timetable {
    /// No journey arrives at a call before it has left an earlier one, and no
    /// walk takes less than no time.
    pub open spec fn is_chronological(self) -> bool {
        &&& forall|i: int|
            0 <= i < self.journeys@.len() ==> (#[trigger] self.journeys@[i]).is_chronological()
        &&& forall|i: int|
            0 <= i < self.stop_connections@.len() ==> (
            #[trigger] self.stop_connections@[i]).duration >= 0
    }
}

} // verus!
