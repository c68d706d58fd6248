//! Building a timetable from its records.
//!
//! [`Timetable::new`] takes the records as they were read, refuses them where
//! one refers to a record that is not there, and otherwise notes for each
//! identifier where its record stands and for each stop what calls there and
//! what leaves it.
use crate::collections::{map_get, map_insert, map_remove};
use crate::timetable::{
    BitField,
    ExchangeTimeAdministration,
    ExchangeTimeJourney,
    Journey,
    Stop,
    StopConnection,
    Timetable,
    DATE_MARGIN,
};
use crate::timetable::{first_position, lemma_first_position};
use crate::utils::Date;
use rustc_hash::FxHashMap;
use vstd::prelude::*;

verus! {

/// `place` is where `id` stands last in `ids`.
pub open spec fn is_last_place(ids: Seq<i32>, id: i32, place: int) -> bool {
    &&& 0 <= place < ids.len()
    &&& ids[place] == id
    &&& forall|k: int| place < k < ids.len() ==> ids[k] != id
}

/// `positions` finds every identifier of `ids`, and no other, where it stands
/// last.
pub open spec fn finds_last_places(positions: Map<i32, usize>, ids: Seq<i32>) -> bool {
    &&& forall|id: i32| #[trigger] positions.contains_key(id) <==> ids.contains(id)
    &&& forall|id: i32| #[trigger]
        positions.contains_key(id) ==> is_last_place(ids, id, positions[id] as int)
}

pub open spec fn stop_ids(stops: Seq<Stop>) -> Seq<i32> {
    stops.map_values(|stop: Stop| stop.id)
}

pub open spec fn journey_ids(journeys: Seq<Journey>) -> Seq<i32> {
    journeys.map_values(|journey: Journey| journey.id)
}

pub open spec fn bit_field_ids(bit_fields: Seq<BitField>) -> Seq<i32> {
    bit_fields.map_values(|bit_field: BitField| bit_field.id)
}

/// The journey at `place` calls at the stop and is the one found by its
/// identifier.
pub open spec fn is_calling_place(journeys: Seq<Journey>, stop_id: i32, place: int) -> bool {
    &&& 0 <= place < journeys.len()
    &&& journeys[place].calls_at(stop_id)
    &&& is_last_place(journey_ids(journeys), journeys[place].id, place)
}

/// Places below `end` of the journeys that call at the stop, in ascending
/// order.
pub open spec fn calling_places(journeys: Seq<Journey>, stop_id: i32, end: int) -> Seq<usize>
    decreases end,
{
    if end <= 0 {
        Seq::empty()
    } else if is_calling_place(journeys, stop_id, end - 1) {
        calling_places(journeys, stop_id, end - 1).push((end - 1) as usize)
    } else {
        calling_places(journeys, stop_id, end - 1)
    }
}

/// Places below `end` of the walks that leave the stop, in ascending order.
pub open spec fn leaving_places(connections: Seq<StopConnection>, stop_id: i32, end: int) -> Seq<
    usize,
>
    decreases end,
{
    if end <= 0 {
        Seq::empty()
    } else if end <= connections.len() && connections[end - 1].stop_id_1 == stop_id {
        leaving_places(connections, stop_id, end - 1).push((end - 1) as usize)
    } else {
        leaving_places(connections, stop_id, end - 1)
    }
}

/// What a journey needs besides its own wellformedness: its stops and its
/// calendar are among the records.
pub open spec fn journey_fits(journey: Journey, stops: Seq<i32>, bit_fields: Seq<i32>) -> bool {
    &&& journey.wf()
    &&& forall|k: int|
        0 <= k < journey.route@.len() ==> stops.contains((#[trigger] journey.route@[k]).stop_id)
    &&& journey.bit_field_id == 0 || bit_fields.contains(journey.bit_field_id)
}

/// The records from which a timetable can be built.
pub open spec fn records_fit(
    stops: Seq<Stop>,
    journeys: Seq<Journey>,
    bit_fields: Seq<BitField>,
    exchange_times_journey: Seq<ExchangeTimeJourney>,
    start_date: Date,
    end_date: Date,
) -> bool {
    &&& start_date.days <= end_date.days
    &&& i32::MIN + DATE_MARGIN <= start_date.days
    &&& end_date.days <= i32::MAX - DATE_MARGIN
    &&& forall|i: int|
        0 <= i < journeys.len() ==> journey_fits(
            #[trigger] journeys[i],
            stop_ids(stops),
            bit_field_ids(bit_fields),
        )
    &&& forall|i: int|
        0 <= i < bit_fields.len() ==> (#[trigger] bit_fields[i]).bits@.len() >= 2 + (end_date.days
            - start_date.days + 1)
    &&& forall|i: int|
        0 <= i < exchange_times_journey.len() ==> (
        #[trigger] exchange_times_journey[i].bit_field_id matches Some(id) ==> bit_field_ids(
            bit_fields,
        ).contains(id))
}

impl Timetable {
    /// The identifiers are found exactly where `new` notes them: each record
    /// where it stands last, each journey under every stop at which it calls,
    /// each walk under the stop that it leaves.
    pub open spec fn is_indexed(self) -> bool {
        &&& finds_last_places(self.stop_positions@, stop_ids(self.stops@))
        &&& finds_last_places(self.journey_positions@, journey_ids(self.journeys@))
        &&& finds_last_places(self.bit_field_positions@, bit_field_ids(self.bit_fields@))
        &&& forall|stop_id: i32| #[trigger]
            self.journeys_at(stop_id) == calling_places(
                self.journeys@,
                stop_id,
                self.journeys@.len() as int,
            )
        &&& forall|stop_id: i32| #[trigger]
            self.connections_at(stop_id) == leaving_places(
                self.stop_connections@,
                stop_id,
                self.stop_connections@.len() as int,
            )
        &&& no_list_is_empty(self.journeys_by_stop@)
        &&& no_list_is_empty(self.connections_by_stop@)
    }
}

/// No stop has a list without a place.
pub open spec fn no_list_is_empty(lists: Map<i32, Vec<usize>>) -> bool {
    forall|stop_id: i32| #[trigger] lists.contains_key(stop_id) ==> lists[stop_id]@.len() > 0
}

/// Notes for each identifier where it stands last.
fn index_ids(ids: &Vec<i32>) -> (positions: FxHashMap<i32, usize>)
    ensures
        finds_last_places(positions@, ids@),
{
    let mut positions: FxHashMap<i32, usize> = FxHashMap::default();
    let mut at: usize = 0;
    while at < ids.len()
        invariant
            at <= ids@.len(),
            finds_last_places(positions@, ids@.take(at as int)),
        decreases ids@.len() - at,
    {
        let id: i32 = ids[at];
        map_insert(&mut positions, id, at);
        proof {
            let before = ids@.take(at as int);
            let after = ids@.take(at + 1);
            assert(after == before.push(id));
            assert forall|other: i32| #[trigger]
                positions@.contains_key(other) <==> after.contains(other) by {
                if other == id {
                    assert(after[at as int] == id);
                } else {
                    if before.contains(other) {
                        let k = choose|k: int| 0 <= k < before.len() && before[k] == other;
                        assert(after[k] == other);
                    }
                    if after.contains(other) {
                        let k = choose|k: int| 0 <= k < after.len() && after[k] == other;
                        assert(before[k] == other);
                    }
                }
            }
            assert forall|other: i32| #[trigger] positions@.contains_key(other) implies is_last_place(
                after,
                other,
                positions@[other] as int,
            ) by {
                if other != id {
                    assert(before.contains(other));
                    assert(is_last_place(before, other, positions@[other] as int));
                }
            }
        }
        at += 1;
    }
    assert(ids@.take(at as int) == ids@);
    positions
}

fn ids_of_stops(stops: &Vec<Stop>) -> (ids: Vec<i32>)
    ensures
        ids@ == stop_ids(stops@),
{
    let mut ids: Vec<i32> = Vec::new();
    let mut at: usize = 0;
    while at < stops.len()
        invariant
            at <= stops@.len(),
            ids@ == stop_ids(stops@).take(at as int),
        decreases stops@.len() - at,
    {
        ids.push(stops[at].id);
        assert(stop_ids(stops@).take(at + 1) == stop_ids(stops@).take(at as int).push(
            stops@[at as int].id,
        ));
        at += 1;
    }
    assert(stop_ids(stops@).take(at as int) == stop_ids(stops@));
    ids
}

fn ids_of_journeys(journeys: &Vec<Journey>) -> (ids: Vec<i32>)
    ensures
        ids@ == journey_ids(journeys@),
{
    let mut ids: Vec<i32> = Vec::new();
    let mut at: usize = 0;
    while at < journeys.len()
        invariant
            at <= journeys@.len(),
            ids@ == journey_ids(journeys@).take(at as int),
        decreases journeys@.len() - at,
    {
        ids.push(journeys[at].id);
        assert(journey_ids(journeys@).take(at + 1) == journey_ids(journeys@).take(at as int).push(
            journeys@[at as int].id,
        ));
        at += 1;
    }
    assert(journey_ids(journeys@).take(at as int) == journey_ids(journeys@));
    ids
}

fn ids_of_bit_fields(bit_fields: &Vec<BitField>) -> (ids: Vec<i32>)
    ensures
        ids@ == bit_field_ids(bit_fields@),
{
    let mut ids: Vec<i32> = Vec::new();
    let mut at: usize = 0;
    while at < bit_fields.len()
        invariant
            at <= bit_fields@.len(),
            ids@ == bit_field_ids(bit_fields@).take(at as int),
        decreases bit_fields@.len() - at,
    {
        ids.push(bit_fields[at].id);
        assert(bit_field_ids(bit_fields@).take(at + 1) == bit_field_ids(bit_fields@).take(
            at as int,
        ).push(bit_fields@[at as int].id));
        at += 1;
    }
    assert(bit_field_ids(bit_fields@).take(at as int) == bit_field_ids(bit_fields@));
    ids
}

/// Whether no stop occurs twice on the route, but that the last may be the
/// first again.
fn route_is_simple(journey: &Journey) -> (simple: bool)
    ensures
        simple == journey.is_simple(),
{
    let length: usize = journey.route.len();
    let mut later: usize = 0;
    while later < length
        invariant
            later <= length == journey.route@.len(),
            forall|i: int, j: int|
                0 <= i < j < later && #[trigger] journey.route@[i].stop_id
                    == #[trigger] journey.route@[j].stop_id ==> i == 0 && j == length - 1,
        decreases length - later,
    {
        let mut earlier: usize = 0;
        while earlier < later
            invariant
                earlier <= later < length == journey.route@.len(),
                forall|i: int|
                    0 <= i < earlier && #[trigger] journey.route@[i].stop_id
                        == journey.route@[later as int].stop_id ==> i == 0 && later == length - 1,
            decreases later - earlier,
        {
            if journey.route[earlier].stop_id == journey.route[later].stop_id && !(earlier == 0
                && later == length - 1) {
                return false;
            }
            earlier += 1;
        }
        later += 1;
    }
    true
}

/// Whether every call of the journey states the times that it must state.
fn route_has_times(journey: &Journey) -> (complete: bool)
    requires
        journey.route@.len() >= 2,
    ensures
        complete == {
            &&& forall|i: int|
                0 <= i < journey.route@.len() ==> (#[trigger] journey.route@[i]).wf()
            &&& forall|i: int|
                1 <= i < journey.route@.len() ==> (
                #[trigger] journey.route@[i]).arrival_time.is_some()
            &&& forall|i: int|
                0 <= i < journey.route@.len() - 1 ==> (
                #[trigger] journey.route@[i]).departure_time.is_some()
        },
{
    let length: usize = journey.route.len();
    let mut at: usize = 0;
    while at < length
        invariant
            at <= length == journey.route@.len(),
            forall|i: int| 0 <= i < at ==> (#[trigger] journey.route@[i]).wf(),
            forall|i: int| 1 <= i < at ==> (#[trigger] journey.route@[i]).arrival_time.is_some(),
            forall|i: int|
                0 <= i < at && i < length - 1 ==> (
                #[trigger] journey.route@[i]).departure_time.is_some(),
        decreases length - at,
    {
        let entry = journey.route[at];
        let arrival_fits = match entry.arrival_time {
            Some(time) => time.secs < 86_400,
            None => at == 0,
        };
        let departure_fits = match entry.departure_time {
            Some(time) => time.secs < 86_400,
            None => at == length - 1,
        };
        if !arrival_fits || !departure_fits {
            assert(!entry.wf() || (at >= 1 && entry.arrival_time.is_none()) || (at < length - 1
                && entry.departure_time.is_none()));
            return false;
        }
        at += 1;
    }
    true
}

impl Journey {
    /// Whether the journey calls at two stops or more, at none of them twice
    /// but that it may end where it began, and states the times that it must
    /// state.
    pub fn is_wellformed(&self) -> (wellformed: bool)
        ensures
            wellformed == self.wf(),
    {
        if self.route.len() < 2 || self.route.len() >= usize::MAX {
            return false;
        }
        route_is_simple(self) && route_has_times(self)
    }
}

/// Whether the journey is wellformed and its stops and calendar are known.
fn journey_is_fit(
    journey: &Journey,
    stops: &FxHashMap<i32, usize>,
    bit_fields: &FxHashMap<i32, usize>,
    Ghost(stop_ids): Ghost<Seq<i32>>,
    Ghost(bit_field_ids): Ghost<Seq<i32>>,
) -> (fit: bool)
    requires
        forall|id: i32| #[trigger] stops@.contains_key(id) <==> stop_ids.contains(id),
        forall|id: i32| #[trigger] bit_fields@.contains_key(id) <==> bit_field_ids.contains(id),
    ensures
        fit == journey_fits(*journey, stop_ids, bit_field_ids),
{
    if !journey.is_wellformed() {
        return false;
    }
    if journey.bit_field_id != 0 && map_get(bit_fields, journey.bit_field_id).is_none() {
        return false;
    }
    let mut at: usize = 0;
    while at < journey.route.len()
        invariant
            at <= journey.route@.len(),
            forall|id: i32| #[trigger] stops@.contains_key(id) <==> stop_ids.contains(id),
            forall|k: int|
                0 <= k < at ==> stop_ids.contains((#[trigger] journey.route@[k]).stop_id),
        decreases journey.route@.len() - at,
    {
        if map_get(stops, journey.route[at].stop_id).is_none() {
            return false;
        }
        at += 1;
    }
    true
}

/// Whether every journey is fit.
fn journeys_are_fit(
    journeys: &Vec<Journey>,
    stops: &FxHashMap<i32, usize>,
    bit_fields: &FxHashMap<i32, usize>,
    Ghost(stop_ids): Ghost<Seq<i32>>,
    Ghost(bit_field_ids): Ghost<Seq<i32>>,
) -> (fit: bool)
    requires
        forall|id: i32| #[trigger] stops@.contains_key(id) <==> stop_ids.contains(id),
        forall|id: i32| #[trigger] bit_fields@.contains_key(id) <==> bit_field_ids.contains(id),
    ensures
        fit == forall|i: int|
            0 <= i < journeys@.len() ==> journey_fits(
                #[trigger] journeys@[i],
                stop_ids,
                bit_field_ids,
            ),
{
    let mut at: usize = 0;
    while at < journeys.len()
        invariant
            at <= journeys@.len(),
            forall|id: i32| #[trigger] stops@.contains_key(id) <==> stop_ids.contains(id),
            forall|id: i32| #[trigger] bit_fields@.contains_key(id) <==> bit_field_ids.contains(id),
            forall|i: int|
                0 <= i < at ==> journey_fits(#[trigger] journeys@[i], stop_ids, bit_field_ids),
        decreases journeys@.len() - at,
    {
        if !journey_is_fit(&journeys[at], stops, bit_fields, Ghost(stop_ids), Ghost(bit_field_ids)) {
            return false;
        }
        at += 1;
    }
    true
}

/// Whether every calendar has an entry for every day of the timetable.
fn bit_fields_are_long(bit_fields: &Vec<BitField>, start_date: Date, end_date: Date) -> (long:
    bool)
    requires
        start_date.days <= end_date.days,
    ensures
        long == forall|i: int|
            0 <= i < bit_fields@.len() ==> (#[trigger] bit_fields@[i]).bits@.len() >= 2 + (
            end_date.days - start_date.days + 1),
{
    let needed: i64 = 3 + (end_date.days as i64 - start_date.days as i64);
    let mut at: usize = 0;
    while at < bit_fields.len()
        invariant
            at <= bit_fields@.len(),
            needed == 2 + (end_date.days - start_date.days + 1),
            needed >= 3,
            forall|i: int| 0 <= i < at ==> (#[trigger] bit_fields@[i]).bits@.len() >= needed,
        decreases bit_fields@.len() - at,
    {
        if (bit_fields[at].bits.len() as u64) < (needed as u64) {
            assert(bit_fields@[at as int].bits@.len() < needed);
            return false;
        }
        at += 1;
    }
    true
}

/// Whether every calendar that an exchange time names is known.
fn exchange_calendars_are_known(
    exchange_times: &Vec<ExchangeTimeJourney>,
    bit_fields: &FxHashMap<i32, usize>,
    Ghost(bit_field_ids): Ghost<Seq<i32>>,
) -> (known: bool)
    requires
        forall|id: i32| #[trigger] bit_fields@.contains_key(id) <==> bit_field_ids.contains(id),
    ensures
        known == forall|i: int|
            0 <= i < exchange_times@.len() ==> (
            #[trigger] exchange_times@[i].bit_field_id matches Some(id) ==> bit_field_ids.contains(
                id,
            )),
{
    let mut at: usize = 0;
    while at < exchange_times.len()
        invariant
            at <= exchange_times@.len(),
            forall|id: i32| #[trigger] bit_fields@.contains_key(id) <==> bit_field_ids.contains(id),
            forall|i: int|
                0 <= i < at ==> (#[trigger] exchange_times@[i].bit_field_id matches Some(id)
                    ==> bit_field_ids.contains(id)),
        decreases exchange_times@.len() - at,
    {
        match exchange_times[at].bit_field_id {
            Some(id) => {
                if map_get(bit_fields, id).is_none() {
                    return false;
                }
            },
            None => {},
        }
        at += 1;
    }
    true
}

/// What a list of places under a stop holds, none where there is no list.
pub open spec fn places_at(lists: Map<i32, Vec<usize>>, stop_id: i32) -> Seq<usize> {
    if lists.contains_key(stop_id) {
        lists[stop_id]@
    } else {
        Seq::empty()
    }
}

/// Adds a place at the end of the list of a stop.
fn note_place(lists: &mut FxHashMap<i32, Vec<usize>>, stop_id: i32, place: usize)
    requires
        no_list_is_empty(old(lists)@),
    ensures
        places_at(final(lists)@, stop_id) == places_at(old(lists)@, stop_id).push(place),
        forall|other: i32|
            other != stop_id ==> #[trigger] places_at(final(lists)@, other) == places_at(
                old(lists)@,
                other,
            ),
        no_list_is_empty(final(lists)@),
{
    let mut list: Vec<usize> = match map_remove(lists, stop_id) {
        Some(list) => list,
        None => Vec::new(),
    };
    list.push(place);
    map_insert(lists, stop_id, list);
}

/// Notes each walk under the stop that it leaves.
fn index_connections(connections: &Vec<StopConnection>) -> (lists: FxHashMap<i32, Vec<usize>>)
    ensures
        forall|stop_id: i32| #[trigger]
            places_at(lists@, stop_id) == leaving_places(
                connections@,
                stop_id,
                connections@.len() as int,
            ),
        no_list_is_empty(lists@),
{
    let mut lists: FxHashMap<i32, Vec<usize>> = FxHashMap::default();
    let mut at: usize = 0;
    while at < connections.len()
        invariant
            at <= connections@.len(),
            no_list_is_empty(lists@),
            forall|stop_id: i32| #[trigger]
                places_at(lists@, stop_id) == leaving_places(connections@, stop_id, at as int),
        decreases connections@.len() - at,
    {
        note_place(&mut lists, connections[at].stop_id_1, at);
        at += 1;
    }
    lists
}

/// Whether the journey calls at the stop at an index below `end`.
pub open spec fn calls_before(journey: Journey, stop_id: i32, end: int) -> bool {
    exists|k: int| 0 <= k < end && k < journey.route@.len() && journey.route@[k].stop_id == stop_id
}

pub proof fn lemma_calls_at(journey: Journey, stop_id: i32)
    ensures
        journey.calls_at(stop_id) == calls_before(journey, stop_id, journey.route@.len() as int),
{
    lemma_first_position(journey.stop_ids(), stop_id, 0);
    let at = first_position(journey.stop_ids(), stop_id, 0);
    if at < journey.route@.len() {
        assert(journey.route@[at].stop_id == stop_id);
    }
    if calls_before(journey, stop_id, journey.route@.len() as int) {
        let k = choose|k: int|
            0 <= k < journey.route@.len() && journey.route@[k].stop_id == stop_id;
        assert(journey.stop_ids()[k] == stop_id);
    }
}

/// Notes each journey that is found by its identifier under the stops at
/// which it calls.
fn index_calls(journeys: &Vec<Journey>, positions: &FxHashMap<i32, usize>) -> (lists: FxHashMap<
    i32,
    Vec<usize>,
>)
    requires
        finds_last_places(positions@, journey_ids(journeys@)),
    ensures
        forall|stop_id: i32| #[trigger]
            places_at(lists@, stop_id) == calling_places(
                journeys@,
                stop_id,
                journeys@.len() as int,
            ),
        no_list_is_empty(lists@),
{
    let mut lists: FxHashMap<i32, Vec<usize>> = FxHashMap::default();
    let mut at: usize = 0;
    while at < journeys.len()
        invariant
            at <= journeys@.len(),
            no_list_is_empty(lists@),
            finds_last_places(positions@, journey_ids(journeys@)),
            forall|stop_id: i32| #[trigger]
                places_at(lists@, stop_id) == calling_places(journeys@, stop_id, at as int),
        decreases journeys@.len() - at,
    {
        let journey = &journeys[at];
        let found = map_get(positions, journey.id);
        let is_found: bool = match found {
            Some(place) => *place == at,
            None => false,
        };
        proof {
            assert(journey_ids(journeys@)[at as int] == journey.id);
            assert(positions@.contains_key(journey.id));
            assert(is_found == is_last_place(journey_ids(journeys@), journey.id, at as int));
        }
        if is_found {
            let mut entry: usize = 0;
            while entry < journey.route.len()
                invariant
                    entry <= journey.route@.len(),
                    at < journeys@.len(),
                    no_list_is_empty(lists@),
                    *journey == journeys@[at as int],
                    is_last_place(journey_ids(journeys@), journey.id, at as int),
                    forall|stop_id: i32| #[trigger]
                        places_at(lists@, stop_id) == if calls_before(
                            *journey,
                            stop_id,
                            entry as int,
                        ) {
                            calling_places(journeys@, stop_id, at as int).push(at)
                        } else {
                            calling_places(journeys@, stop_id, at as int)
                        },
                decreases journey.route@.len() - entry,
            {
                let stop_id: i32 = journey.route[entry].stop_id;
                let noted: bool = match map_get(&lists, stop_id) {
                    Some(list) => list.len() > 0 && list[list.len() - 1] == at,
                    None => false,
                };
                proof {
                    lemma_calling_places_below(journeys@, stop_id, at as int);
                    let base = calling_places(journeys@, stop_id, at as int);
                    let list = places_at(lists@, stop_id);
                    if calls_before(*journey, stop_id, entry as int) {
                        assert(list == base.push(at));
                        assert(list[list.len() - 1] == at);
                    } else {
                        assert(list == base);
                        if list.len() > 0 {
                            assert(base[base.len() - 1] < at);
                        }
                    }
                    assert(noted == calls_before(*journey, stop_id, entry as int));
                }
                if !noted {
                    note_place(&mut lists, stop_id, at);
                }
                proof {
                    assert(calls_before(*journey, stop_id, entry + 1));
                    assert forall|other: i32| other != stop_id implies calls_before(
                        *journey,
                        other,
                        entry + 1,
                    ) == calls_before(*journey, other, entry as int) by {
                        if calls_before(*journey, other, entry + 1) {
                            let k = choose|k: int|
                                0 <= k < entry + 1 && k < journey.route@.len()
                                    && journey.route@[k].stop_id == other;
                            assert(k < entry);
                        }
                    }
                }
                entry += 1;
            }
            proof {
                assert forall|stop_id: i32| #[trigger]
                    places_at(lists@, stop_id) == calling_places(journeys@, stop_id, at + 1) by {
                    lemma_calls_at(*journey, stop_id);
                }
            }
        } else {
            proof {
                assert forall|stop_id: i32| #[trigger]
                    places_at(lists@, stop_id) == calling_places(journeys@, stop_id, at + 1) by {
                    assert(!is_calling_place(journeys@, stop_id, at as int));
                }
            }
        }
        at += 1;
    }
    lists
}

/// Every place that [`calling_places`] lists lies below its end.
pub proof fn lemma_calling_places_below(journeys: Seq<Journey>, stop_id: i32, end: int)
    requires
        end <= usize::MAX,
    ensures
        forall|k: int|
            0 <= k < calling_places(journeys, stop_id, end).len() ==> {
                &&& (#[trigger] calling_places(journeys, stop_id, end)[k]) < end
                &&& is_calling_place(journeys, stop_id, calling_places(journeys, stop_id, end)[k] as int)
            },
    decreases end,
{
    if end > 0 {
        lemma_calling_places_below(journeys, stop_id, end - 1);
        let before = calling_places(journeys, stop_id, end - 1);
        let places = calling_places(journeys, stop_id, end);
        assert forall|k: int| 0 <= k < places.len() implies (#[trigger] places[k]) < end
            && is_calling_place(journeys, stop_id, places[k] as int) by {
            if k < before.len() {
                assert(places[k] == before[k]);
            }
        }
    }
}

/// Every place that [`leaving_places`] lists lies below its end and holds a
/// walk that leaves the stop.
pub proof fn lemma_leaving_places_below(connections: Seq<StopConnection>, stop_id: i32, end: int)
    requires
        end <= usize::MAX,
    ensures
        forall|k: int|
            0 <= k < leaving_places(connections, stop_id, end).len() ==> {
                &&& (#[trigger] leaving_places(connections, stop_id, end)[k]) < end
                &&& leaving_places(connections, stop_id, end)[k] < connections.len()
                &&& connections[leaving_places(connections, stop_id, end)[k] as int].stop_id_1
                    == stop_id
            },
    decreases end,
{
    if end > 0 {
        lemma_leaving_places_below(connections, stop_id, end - 1);
        let before = leaving_places(connections, stop_id, end - 1);
        let places = leaving_places(connections, stop_id, end);
        assert forall|k: int| 0 <= k < places.len() implies (#[trigger] places[k]) < end
            && places[k] < connections.len() && connections[places[k] as int].stop_id_1
            == stop_id by {
            if k < before.len() {
                assert(places[k] == before[k]);
            }
        }
    }
}

impl Timetable {
    /// A timetable of the given records, where they fit together; `None`
    /// where they do not.
    pub fn new(
        stops: Vec<Stop>,
        journeys: Vec<Journey>,
        stop_connections: Vec<StopConnection>,
        bit_fields: Vec<BitField>,
        exchange_times_journey: Vec<ExchangeTimeJourney>,
        exchange_times_administration: Vec<ExchangeTimeAdministration>,
        default_exchange_time: (i16, i16),
        start_date: Date,
        end_date: Date,
    ) -> (timetable: Option<Timetable>)
        ensures
            timetable.is_some() == records_fit(
                stops@,
                journeys@,
                bit_fields@,
                exchange_times_journey@,
                start_date,
                end_date,
            ),
            timetable matches Some(t) ==> {
                &&& t.wf()
                &&& t.is_indexed()
                &&& t.stops == stops
                &&& t.journeys == journeys
                &&& t.stop_connections == stop_connections
                &&& t.bit_fields == bit_fields
                &&& t.exchange_times_journey == exchange_times_journey
                &&& t.exchange_times_administration == exchange_times_administration
                &&& t.default_exchange_time == default_exchange_time
                &&& t.start_date == start_date
                &&& t.end_date == end_date
            },
    {
        if start_date.days > end_date.days || start_date.days < i32::MIN + DATE_MARGIN
            || end_date.days > i32::MAX - DATE_MARGIN {
            return None;
        }
        let stop_list = ids_of_stops(&stops);
        let journey_list = ids_of_journeys(&journeys);
        let bit_field_list = ids_of_bit_fields(&bit_fields);
        let stop_positions = index_ids(&stop_list);
        let journey_positions = index_ids(&journey_list);
        let bit_field_positions = index_ids(&bit_field_list);
        if !bit_fields_are_long(&bit_fields, start_date, end_date) {
            return None;
        }
        if !journeys_are_fit(
            &journeys,
            &stop_positions,
            &bit_field_positions,
            Ghost(stop_list@),
            Ghost(bit_field_list@),
        ) {
            return None;
        }
        if !exchange_calendars_are_known(
            &exchange_times_journey,
            &bit_field_positions,
            Ghost(bit_field_list@),
        ) {
            return None;
        }
        let journeys_by_stop = index_calls(&journeys, &journey_positions);
        let connections_by_stop = index_connections(&stop_connections);
        let journey_count: usize = journeys.len();
        let connection_count: usize = stop_connections.len();
        let timetable = Timetable {
            stops,
            journeys,
            stop_connections,
            bit_fields,
            exchange_times_journey,
            exchange_times_administration,
            default_exchange_time,
            start_date,
            end_date,
            stop_positions,
            journey_positions,
            bit_field_positions,
            journeys_by_stop,
            connections_by_stop,
        };
        proof {
            assert(timetable.journeys@.len() == journey_count);
            assert(timetable.stop_connections@.len() == connection_count);
            assert forall|stop_id: i32| #[trigger]
                timetable.journeys_at(stop_id) == calling_places(
                    timetable.journeys@,
                    stop_id,
                    timetable.journeys@.len() as int,
                ) by {
                assert(timetable.journeys_at(stop_id) == places_at(
                    timetable.journeys_by_stop@,
                    stop_id,
                ));
            }
            assert forall|stop_id: i32| #[trigger]
                timetable.connections_at(stop_id) == leaving_places(
                    timetable.stop_connections@,
                    stop_id,
                    timetable.stop_connections@.len() as int,
                ) by {
                assert(timetable.connections_at(stop_id) == places_at(
                    timetable.connections_by_stop@,
                    stop_id,
                ));
            }
            assert(timetable.is_indexed());
            assert(timetable.positions_wf()) by {
                assert forall|id: i32| #[trigger]
                    timetable.stop_positions@.contains_key(id) implies timetable.stop_positions@[id]
                    < timetable.stops@.len()
                    && timetable.stops@[timetable.stop_positions@[id] as int].id == id by {
                    assert(is_last_place(
                        stop_ids(timetable.stops@),
                        id,
                        timetable.stop_positions@[id] as int,
                    ));
                }
                assert forall|id: i32| #[trigger]
                    timetable.journey_positions@.contains_key(id) implies timetable.journey_positions@[id]
                    < timetable.journeys@.len()
                    && timetable.journeys@[timetable.journey_positions@[id] as int].id == id by {
                    assert(is_last_place(
                        journey_ids(timetable.journeys@),
                        id,
                        timetable.journey_positions@[id] as int,
                    ));
                }
                assert forall|id: i32| #[trigger]
                    timetable.bit_field_positions@.contains_key(id) implies timetable.bit_field_positions@[id]
                    < timetable.bit_fields@.len()
                    && timetable.bit_fields@[timetable.bit_field_positions@[id] as int].id
                    == id by {
                    assert(is_last_place(
                        bit_field_ids(timetable.bit_fields@),
                        id,
                        timetable.bit_field_positions@[id] as int,
                    ));
                }
            }
            assert(timetable.records_wf()) by {
                assert forall|i: int| 0 <= i < timetable.journeys@.len() implies (
                #[trigger] timetable.journeys@[i]).wf() && (timetable.journeys@[i].bit_field_id == 0
                    || timetable.has_bit_field(timetable.journeys@[i].bit_field_id)) by {
                    assert(journey_fits(
                        timetable.journeys@[i],
                        stop_ids(timetable.stops@),
                        bit_field_ids(timetable.bit_fields@),
                    ));
                }
                assert forall|i: int, k: int|
                    0 <= i < timetable.journeys@.len() && 0 <= k
                        < timetable.journeys@[i].route@.len() implies timetable.has_stop(
                    (#[trigger] timetable.journeys@[i].route@[k]).stop_id,
                ) by {
                    assert(journey_fits(
                        timetable.journeys@[i],
                        stop_ids(timetable.stops@),
                        bit_field_ids(timetable.bit_fields@),
                    ));
                }
            }
            assert(timetable.links_wf()) by {
                assert forall|stop_id: i32, k: int|
                    0 <= k < timetable.journeys_at(stop_id).len() implies {
                    let place = #[trigger] timetable.journeys_at(stop_id)[k];
                    &&& place < timetable.journeys@.len()
                    &&& timetable.journeys@[place as int].calls_at(stop_id)
                    &&& timetable.has_journey(timetable.journeys@[place as int].id)
                    &&& timetable.journey_positions@[timetable.journeys@[place as int].id] == place
                } by {
                    lemma_calling_places_below(
                        timetable.journeys@,
                        stop_id,
                        timetable.journeys@.len() as int,
                    );
                    let place = timetable.journeys_at(stop_id)[k];
                    assert(is_calling_place(timetable.journeys@, stop_id, place as int));
                    let id = timetable.journeys@[place as int].id;
                    assert(journey_ids(timetable.journeys@)[place as int] == id);
                    assert(journey_ids(timetable.journeys@).contains(id));
                    assert(timetable.journey_positions@.contains_key(id));
                    assert(is_last_place(
                        journey_ids(timetable.journeys@),
                        id,
                        timetable.journey_positions@[id] as int,
                    ));
                }
                assert forall|stop_id: i32, k: int|
                    0 <= k < timetable.connections_at(stop_id).len() implies {
                    let place = #[trigger] timetable.connections_at(stop_id)[k];
                    &&& place < timetable.stop_connections@.len()
                    &&& timetable.stop_connections@[place as int].stop_id_1 == stop_id
                } by {
                    lemma_leaving_places_below(
                        timetable.stop_connections@,
                        stop_id,
                        timetable.stop_connections@.len() as int,
                    );
                }
            }
        }
        Some(timetable)
    }
}

} // verus!
