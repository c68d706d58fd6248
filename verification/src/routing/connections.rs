//! What leaves a stop: the journeys that run on a day, the rides that can be
//! boarded from an instant on, and the routes that they lead to.
use crate::collections::{map_get, set_contains, set_insert};
use crate::journey::route_hash;
use crate::routing::exchange::{calendar_bit, exchange_time_spec, get_exchange_time};
use crate::routing::models::{Route, RouteView};
use crate::routing::utils::ways_are_known;
use crate::routing::query::{
    all_ride_at_most,
    all_succeed,
    lemma_extend_answers,
    lemma_extend_rides,
};
use crate::journey::day_flag;
use crate::routing::route_impl::{extend_spec, lemma_extend_fits};
use crate::routing::route_impl::is_boarded_in_time;
use crate::routing::utils::{get_routes_to_ignore, routes_to_ignore_spec, views};

use crate::timetable::{lemma_first_position, Journey, Timetable};
use crate::utils::{add_1_day, create_time, Date, DateTime};
use rustc_hash::FxHashSet;
use vstd::prelude::*;

verus! {

/// Seconds that a passenger waits at most for a ride, and by which the last
/// ride of a day must lie ahead for the next day to be left aside.
pub const DEPARTURE_WINDOW: i64 = 14_400;

/// Hour until which rides are looked for at least.
pub const EARLIEST_WINDOW_END: u32 = 8;

/// Whether the journey runs on the day.
pub open spec fn operates_on(timetable: Timetable, journey: Journey, date: Date) -> bool {
    &&& timetable.covers(date)
    &&& journey.bit_field_id == 0 || calendar_bit(
        timetable.bit_field(journey.bit_field_id).bits@,
        2 + (date.days - timetable.start_date.days),
    )
}

/// Whether the journey at a place of the timetable runs on the day.
pub open spec fn runs_on(timetable: Timetable, date: Date) -> spec_fn(usize) -> bool {
    |place: usize| operates_on(timetable, timetable.journeys@[place as int], date)
}

/// Identifier of the journey at a place of the timetable.
pub open spec fn id_at(timetable: Timetable) -> spec_fn(usize) -> i32 {
    |place: usize| timetable.journeys@[place as int].id
}

/// The journeys that call at the stop and run on the day, in the order of the
/// timetable.
pub open spec fn operating_journeys_spec(timetable: Timetable, date: Date, stop_id: i32) -> Seq<
    i32,
> {
    timetable.journeys_at(stop_id).filter(runs_on(timetable, date)).map_values(id_at(timetable))
}

/// Whether the journey goes on from the stop.
pub open spec fn leaves(timetable: Timetable, stop_id: i32) -> spec_fn(i32) -> bool {
    |journey_id: i32| !timetable.journey(journey_id).is_last_stop_spec(stop_id, true)
}

/// The journey with the instant at which it leaves the stop, where it began on
/// `date`.
pub open spec fn boarding_on(timetable: Timetable, stop_id: i32, date: Date) -> spec_fn(i32) -> (
    i32,
    DateTime,
) {
    |journey_id: i32|
        (journey_id, timetable.journey(journey_id).departure_at_spec(stop_id, date).unwrap())
}

/// The rides that leave the stop on journeys that began on `date`.
pub open spec fn departures_on(timetable: Timetable, date: Date, stop_id: i32) -> Seq<
    (i32, DateTime),
> {
    operating_journeys_spec(timetable, date, stop_id).filter(leaves(timetable, stop_id)).map_values(
        boarding_on(timetable, stop_id, date),
    )
}

/// Timestamp of the latest of the rides, and `floor` at least.
pub open spec fn latest_departure(boardings: Seq<(i32, DateTime)>, floor: int) -> int
    decreases boardings.len(),
{
    if boardings.len() == 0 {
        floor
    } else {
        let before = latest_departure(boardings.drop_last(), floor);
        if boardings.last().1.timestamp() > before {
            boardings.last().1.timestamp()
        } else {
            before
        }
    }
}

/// Whether the rides of the following day are looked at too: the last ride of
/// the day leaves less than four hours after `departure_at`.
pub open spec fn looks_at_next_day(timetable: Timetable, stop_id: i32, departure_at: DateTime)
    -> bool {
    departure_at.timestamp() > latest_departure(
        departures_on(timetable, departure_at.date, stop_id),
        departure_at.date.days * 86_400,
    ) - DEPARTURE_WINDOW
}

/// Timestamp of the last instant at which a ride is looked for: 08:00 of the
/// next day where that day is looked at; else 08:00 of the day or four hours
/// after `departure_at`, whichever is later.
pub open spec fn window_end(timetable: Timetable, stop_id: i32, departure_at: DateTime) -> int {
    if looks_at_next_day(timetable, stop_id, departure_at) {
        (departure_at.date.days + 1) * 86_400 + EARLIEST_WINDOW_END * 3_600
    } else if departure_at.timestamp() + DEPARTURE_WINDOW < departure_at.date.days * 86_400
        + EARLIEST_WINDOW_END * 3_600 {
        departure_at.date.days * 86_400 + EARLIEST_WINDOW_END * 3_600
    } else {
        departure_at.timestamp() + DEPARTURE_WINDOW
    }
}

/// The rides among which the next departures are chosen.
pub open spec fn candidates(timetable: Timetable, stop_id: i32, departure_at: DateTime) -> Seq<
    (i32, DateTime),
> {
    if looks_at_next_day(timetable, stop_id, departure_at) {
        departures_on(timetable, departure_at.date, stop_id) + departures_on(
            timetable,
            Date { days: (departure_at.date.days + 1) as i32 },
            stop_id,
        )
    } else {
        departures_on(timetable, departure_at.date, stop_id)
    }
}

/// Whether a ride leaves between two timestamps.
pub open spec fn in_window(from: int, to: int) -> spec_fn((i32, DateTime)) -> bool {
    |boarding: (i32, DateTime)| from <= boarding.1.timestamp() <= to
}

/// Index of the first ride that leaves after `timestamp`; the number of rides
/// where none does.
pub open spec fn boarding_position(boardings: Seq<(i32, DateTime)>, timestamp: int) -> int
    decreases boardings.len(),
{
    if boardings.len() == 0 {
        0
    } else if timestamp < boardings[0].1.timestamp() {
        0
    } else {
        1 + boarding_position(boardings.drop_first(), timestamp)
    }
}

/// The rides in the order of their departure; rides that leave at the same
/// instant keep their order.
pub open spec fn sort_boardings_spec(boardings: Seq<(i32, DateTime)>) -> Seq<(i32, DateTime)>
    decreases boardings.len(),
{
    if boardings.len() == 0 {
        Seq::empty()
    } else {
        let sorted = sort_boardings_spec(boardings.drop_last());
        sorted.insert(
            boarding_position(sorted, boardings.last().1.timestamp()),
            boardings.last(),
        )
    }
}

/// Of the rides, in their order, each whose fingerprint is not among `ignored`
/// and is not that of a ride before it; with the fingerprints then known.
pub open spec fn first_per_hash(
    boardings: Seq<(i32, DateTime)>,
    hashes: Seq<u64>,
    ignored: Set<u64>,
) -> (Seq<(i32, DateTime)>, Set<u64>)
    decreases boardings.len(),
{
    if boardings.len() == 0 || hashes.len() != boardings.len() {
        (Seq::empty(), ignored)
    } else {
        let (kept, seen) = first_per_hash(boardings.drop_last(), hashes.drop_last(), ignored);
        if seen.contains(hashes.last()) {
            (kept, seen)
        } else {
            (kept.push(boardings.last()), seen.insert(hashes.last()))
        }
    }
}

/// Fingerprint of the ride's journey from the stop on.
pub open spec fn boarding_hash(timetable: Timetable, stop_id: i32) -> spec_fn((i32, DateTime))
    -> u64 {
    |boarding: (i32, DateTime)|
        route_hash(timetable.journey(boarding.0).stop_ids(), stop_id).unwrap()
}

/// Whether a passenger who arrives at the stop at `timestamp` on the journey
/// `previous` has the time to change to the ride.
pub open spec fn has_time_to_change(timetable: Timetable, stop_id: i32, previous: i32, timestamp: int)
    -> spec_fn((i32, DateTime)) -> bool {
    |boarding: (i32, DateTime)|
        timestamp + 60 * exchange_time_spec(timetable, stop_id, previous, boarding.0, boarding.1)
            <= boarding.1.timestamp()
}

/// The rides that a passenger can board at the stop from `departure_at` on,
/// in the order of their departure.
pub open spec fn next_departures_spec(
    timetable: Timetable,
    departure_stop_id: i32,
    departure_at: DateTime,
    routes_to_ignore: Set<u64>,
    previous_journey_id: Option<i32>,
) -> Seq<(i32, DateTime)> {
    let sorted = sort_boardings_spec(
        candidates(timetable, departure_stop_id, departure_at).filter(
            in_window(
                departure_at.timestamp(),
                window_end(timetable, departure_stop_id, departure_at),
            ),
        ),
    );
    let kept = first_per_hash(
        sorted,
        sorted.map_values(boarding_hash(timetable, departure_stop_id)),
        routes_to_ignore,
    ).0;
    match previous_journey_id {
        Some(previous) => kept.filter(
            has_time_to_change(timetable, departure_stop_id, previous, departure_at.timestamp()),
        ),
        None => kept,
    }
}

/// What holds of every ride that the timetable offers at a stop: its journey
/// goes on from there, at the time of day of the ride, and began on a day of
/// the timetable.
pub open spec fn boarding_fits(timetable: Timetable, stop_id: i32, boarding: (i32, DateTime))
    -> bool {
    let journey = timetable.journey(boarding.0);
    &&& timetable.has_journey(boarding.0)
    &&& boarding.1.wf()
    &&& journey.calls_at(stop_id)
    &&& !journey.is_last_stop_spec(stop_id, true)
    &&& journey.departure_time_spec(stop_id) matches Some((time, is_next_day)) && time
        == boarding.1.time && timetable.start_date.days <= boarding.1.date.days - day_flag(
        is_next_day,
    ) <= timetable.end_date.days
}

pub open spec fn all_fit(timetable: Timetable, stop_id: i32, boardings: Seq<(i32, DateTime)>)
    -> bool {
    forall|i: int|
        0 <= i < boardings.len() ==> boarding_fits(timetable, stop_id, #[trigger] boardings[i])
}

/// Every one of `part` is one of `whole`.
pub open spec fn all_from(part: Seq<(i32, DateTime)>, whole: Seq<(i32, DateTime)>) -> bool {
    forall|i: int| 0 <= i < part.len() ==> whole.contains(#[trigger] part[i])
}

/// The journeys are journeys of the timetable that call at the stop, and the
/// day, if there is any of them, is a day of the timetable.
pub open spec fn all_call_at(timetable: Timetable, stop_id: i32, date: Date, journeys: Seq<i32>)
    -> bool {
    &&& journeys.len() > 0 ==> timetable.covers(date)
    &&& forall|i: int|
        0 <= i < journeys.len() ==> timetable.has_journey(#[trigger] journeys[i])
            && timetable.journey(journeys[i]).calls_at(stop_id)
}

/// A journey that calls at a stop and goes on from there leaves it at a stated
/// time.
pub proof fn lemma_departure_exists(journey: Journey, stop_id: i32)
    requires
        journey.wf(),
        journey.calls_at(stop_id),
        !journey.is_last_stop_spec(stop_id, true),
    ensures
        journey.departure_time_spec(stop_id).is_some(),
        journey.departure_position(stop_id) < journey.route@.len() - 1,
{
    lemma_first_position(journey.stop_ids(), stop_id, 0);
    let at = journey.departure_position(stop_id);
    assert(journey.route@[at].stop_id == stop_id);
    if at == journey.route@.len() - 1 {
        assert(journey.route@[0].stop_id == stop_id);
        assert(journey.stop_ids()[0] == stop_id);
    }
}

/// The journeys that call at the stop and run on the day, in the order of the
/// timetable.
pub fn get_operating_journeys(timetable: &Timetable, date: Date, stop_id: i32) -> (journeys: Vec<
    i32,
>)
    requires
        timetable.wf(),
    ensures
        journeys@ == operating_journeys_spec(*timetable, date, stop_id),
        all_call_at(*timetable, stop_id, date, journeys@),
{
    let mut journeys: Vec<i32> = Vec::new();
    let places = match map_get(&timetable.journeys_by_stop, stop_id) {
        Some(places) => places,
        None => {
            assert(timetable.journeys_at(stop_id) =~= Seq::empty());
            return journeys;
        },
    };
    let in_timetable: bool = timetable.start_date.days <= date.days && date.days
        <= timetable.end_date.days;
    let index: i64 = 2 + (date.days as i64 - timetable.start_date.days as i64);
    let mut at: usize = 0;
    while at < places.len()
        invariant
            at <= places@.len(),
            timetable.wf(),
            places@ == timetable.journeys_at(stop_id),
            in_timetable == timetable.covers(date),
            index == 2 + (date.days - timetable.start_date.days),
            journeys@ == places@.take(at as int).filter(runs_on(*timetable, date)).map_values(
                id_at(*timetable),
            ),
            all_call_at(*timetable, stop_id, date, journeys@),
        decreases places@.len() - at,
    {
        let place: usize = places[at];
        assert(timetable.journeys_at(stop_id)[at as int] == place);
        let journey = &timetable.journeys[place];
        let runs: bool = in_timetable && (journey.bit_field_id == 0 || match timetable.find_bit_field(
            journey.bit_field_id,
        ) {
            Some(bit_field) => bit_field.bits[index as usize] == 1,
            None => false,
        });
        proof {
            assert(timetable.links_wf());
            assert(timetable.has_journey(journey.id));
            assert(timetable.journey_positions@[journey.id] == place);
            assert(timetable.journey(journey.id) == *journey);
            assert(journey.calls_at(stop_id));
            assert(runs == operates_on(*timetable, *journey, date));
            let before = places@.take(at as int);
            assert(places@.take(at + 1) == before.push(place));
            before.lemma_filter_push(place, runs_on(*timetable, date));
            if runs {
                before.filter(runs_on(*timetable, date)).lemma_push_map_commute(
                    id_at(*timetable),
                    place,
                );
            }
        }
        let ghost previous = journeys@;
        if runs {
            journeys.push(journey.id);
        }
        proof {
            assert forall|i: int| 0 <= i < journeys@.len() implies timetable.has_journey(
                #[trigger] journeys@[i],
            ) && timetable.journey(journeys@[i]).calls_at(stop_id) by {
                if i < previous.len() {
                    assert(journeys@[i] == previous[i]);
                }
            }
        }
        at += 1;
    }
    assert(places@.take(at as int) == places@);
    journeys
}

/// The rides that leave the stop on journeys that began on `date`, and the
/// latest instant at which one of them leaves (midnight where there is none).
pub fn get_journeys(timetable: &Timetable, date: Date, stop_id: i32) -> (found: (
    Vec<(i32, DateTime)>,
    DateTime,
))
    requires
        timetable.wf(),
        date.days < i32::MAX,
    ensures
        found.0@ == departures_on(*timetable, date, stop_id),
        all_fit(*timetable, stop_id, found.0@),
        found.1.wf(),
        found.1.timestamp() == latest_departure(found.0@, date.days * 86_400),
        found.1.date.days >= date.days,
        found.1.date.days <= date.days + 1,
{
    let operating = get_operating_journeys(timetable, date, stop_id);
    let mut boardings: Vec<(i32, DateTime)> = Vec::new();
    let mut latest = DateTime::new(date, create_time(0, 0));
    let mut at: usize = 0;
    while at < operating.len()
        invariant
            at <= operating@.len(),
            timetable.wf(),
            date.days < i32::MAX,
            operating@ == operating_journeys_spec(*timetable, date, stop_id),
            all_call_at(*timetable, stop_id, date, operating@),
            boardings@ == operating@.take(at as int).filter(leaves(*timetable, stop_id)).map_values(
                boarding_on(*timetable, stop_id, date),
            ),
            all_fit(*timetable, stop_id, boardings@),
            latest.wf(),
            latest.timestamp() == latest_departure(boardings@, date.days * 86_400),
            date.days <= latest.date.days <= date.days + 1,
        decreases operating@.len() - at,
    {
        let journey_id: i32 = operating[at];
        assert(timetable.has_journey(operating@[at as int]));
        let journey = timetable.find_journey(journey_id).unwrap();
        let goes_on: bool = !journey.is_last_stop(stop_id, true);
        proof {
            let before = operating@.take(at as int);
            assert(operating@.take(at + 1) == before.push(journey_id));
            before.lemma_filter_push(journey_id, leaves(*timetable, stop_id));
            if goes_on {
                before.filter(leaves(*timetable, stop_id)).lemma_push_map_commute(
                    boarding_on(*timetable, stop_id, date),
                    journey_id,
                );
                lemma_departure_exists(*journey, stop_id);
            }
        }
        if goes_on {
            let departure_at = journey.departure_at_of(stop_id, date).unwrap();
            let ghost previous = boardings@;
            boardings.push((journey_id, departure_at));
            proof {
                assert(boardings@.drop_last() == previous);
                assert(boarding_fits(*timetable, stop_id, (journey_id, departure_at)));
            }
            if latest.is_before(departure_at) {
                latest = departure_at;
            }
        }
        at += 1;
    }
    assert(operating@.take(at as int) == operating@);
    (boardings, latest)
}

/// The rides that leave between two instants, in their order.
fn keep_in_window(boardings: &Vec<(i32, DateTime)>, from: DateTime, to: DateTime) -> (kept: Vec<
    (i32, DateTime),
>)
    requires
        from.wf(),
        to.wf(),
        forall|i: int| 0 <= i < boardings@.len() ==> (#[trigger] boardings@[i]).1.wf(),
    ensures
        kept@ == boardings@.filter(in_window(from.timestamp(), to.timestamp())),
        all_from(kept@, boardings@),
{
    let mut kept: Vec<(i32, DateTime)> = Vec::new();
    let mut at: usize = 0;
    while at < boardings.len()
        invariant
            at <= boardings@.len(),
            from.wf(),
            to.wf(),
            forall|i: int| 0 <= i < boardings@.len() ==> (#[trigger] boardings@[i]).1.wf(),
            kept@ == boardings@.take(at as int).filter(
                in_window(from.timestamp(), to.timestamp()),
            ),
            all_from(kept@, boardings@),
        decreases boardings@.len() - at,
    {
        let boarding = boardings[at];
        proof {
            let before = boardings@.take(at as int);
            assert(boardings@.take(at + 1) == before.push(boarding));
            before.lemma_filter_push(boarding, in_window(from.timestamp(), to.timestamp()));
        }
        if from.is_at_or_before(boarding.1) && boarding.1.is_at_or_before(to) {
            kept.push(boarding);
            assert(boardings@[at as int] == boarding);
        }
        at += 1;
    }
    assert(boardings@.take(at as int) == boardings@);
    kept
}

pub proof fn lemma_boarding_position_in_range(boardings: Seq<(i32, DateTime)>, timestamp: int)
    ensures
        0 <= boarding_position(boardings, timestamp) <= boardings.len(),
    decreases boardings.len(),
{
    if boardings.len() > 0 {
        lemma_boarding_position_in_range(boardings.drop_first(), timestamp);
    }
}

/// Puts the rides in the order of their departure; rides that leave at the
/// same instant keep their order.
pub fn sort_boardings(boardings: &Vec<(i32, DateTime)>) -> (sorted: Vec<(i32, DateTime)>)
    requires
        forall|i: int| 0 <= i < boardings@.len() ==> (#[trigger] boardings@[i]).1.wf(),
    ensures
        sorted@ == sort_boardings_spec(boardings@),
        all_from(sorted@, boardings@),
        sorted@.len() == boardings@.len(),
{
    let mut sorted: Vec<(i32, DateTime)> = Vec::new();
    let mut at: usize = 0;
    while at < boardings.len()
        invariant
            at <= boardings@.len(),
            forall|i: int| 0 <= i < boardings@.len() ==> (#[trigger] boardings@[i]).1.wf(),
            sorted@ == sort_boardings_spec(boardings@.take(at as int)),
            all_from(sorted@, boardings@),
            sorted@.len() == at,
        decreases boardings@.len() - at,
    {
        let boarding = boardings[at];
        let ghost before = sorted@;
        let mut index: usize = 0;
        assert(before.skip(0) == before);
        while index < sorted.len() && !boarding.1.is_before(sorted[index].1)
            invariant
                index <= sorted@.len(),
                sorted@ == before,
                boarding.1.wf(),
                forall|i: int| 0 <= i < boardings@.len() ==> (#[trigger] boardings@[i]).1.wf(),
                all_from(sorted@, boardings@),
                boarding_position(before, boarding.1.timestamp()) == index + boarding_position(
                    before.skip(index as int),
                    boarding.1.timestamp(),
                ),
            decreases sorted@.len() - index,
        {
            proof {
                assert(before.skip(index as int)[0] == before[index as int]);
                assert(before.skip(index as int).drop_first() == before.skip(index + 1));
                assert(boardings@.contains(sorted@[index as int]));
            }
            index += 1;
        }
        proof {
            if index < sorted@.len() {
                assert(before.skip(index as int)[0] == before[index as int]);
                assert(boardings@.contains(sorted@[index as int]));
            }
            assert(boardings@.take(at + 1).drop_last() == boardings@.take(at as int));
            assert(boardings@.take(at + 1).last() == boarding);
        }
        sorted.insert(index, boarding);
        proof {
            assert(boardings@[at as int] == boarding);
            assert forall|i: int| 0 <= i < sorted@.len() implies boardings@.contains(
                #[trigger] sorted@[i],
            ) by {
                if i < index {
                    assert(sorted@[i] == before[i]);
                } else if i > index {
                    assert(sorted@[i] == before[i - 1]);
                }
            }
        }
        at += 1;
    }
    assert(boardings@.take(at as int) == boardings@);
    sorted
}

/// Of the rides, in their order, each whose fingerprint is not among
/// `routes_to_ignore` and is not that of a ride before it. `hashes` holds the
/// fingerprint of each ride.
pub fn keep_first_per_route(
    boardings: &Vec<(i32, DateTime)>,
    hashes: &Vec<u64>,
    routes_to_ignore: FxHashSet<u64>,
) -> (kept: Vec<(i32, DateTime)>)
    requires
        boardings@.len() == hashes@.len(),
    ensures
        kept@ == first_per_hash(boardings@, hashes@, routes_to_ignore@).0,
        all_from(kept@, boardings@),
        all_fresh(kept@, boardings@, hashes@, routes_to_ignore@),
{
    let ghost ignored = routes_to_ignore@;
    let mut seen = routes_to_ignore;
    let mut kept: Vec<(i32, DateTime)> = Vec::new();
    let mut at: usize = 0;
    while at < boardings.len()
        invariant
            at <= boardings@.len(),
            boardings@.len() == hashes@.len(),
            (kept@, seen@) == first_per_hash(
                boardings@.take(at as int),
                hashes@.take(at as int),
                ignored,
            ),
            all_from(kept@, boardings@),
            all_fresh(kept@, boardings@, hashes@, ignored),
            ignored.subset_of(seen@),
        decreases boardings@.len() - at,
    {
        proof {
            assert(boardings@.take(at + 1).drop_last() == boardings@.take(at as int));
            assert(hashes@.take(at + 1).drop_last() == hashes@.take(at as int));
            assert(boardings@.take(at + 1).last() == boardings@[at as int]);
            assert(hashes@.take(at + 1).last() == hashes@[at as int]);
        }
        if !set_contains(&seen, hashes[at]) {
            set_insert(&mut seen, hashes[at]);
            let ghost before = kept@;
            kept.push(boardings[at]);
            proof {
                assert forall|i: int| 0 <= i < kept@.len() implies is_fresh(
                    #[trigger] kept@[i],
                    boardings@,
                    hashes@,
                    ignored,
                ) by {
                    if i < before.len() {
                        assert(kept@[i] == before[i]);
                    } else {
                        assert(boardings@[at as int] == kept@[i] && !ignored.contains(
                            hashes@[at as int],
                        ));
                    }
                }
            }
        }
        at += 1;
    }
    proof {
        assert(boardings@.take(at as int) == boardings@);
        assert(hashes@.take(at as int) == hashes@);
    }
    kept
}

/// The fingerprint, from the stop on, of the journey of each ride.
fn hashes_of(timetable: &Timetable, stop_id: i32, boardings: &Vec<(i32, DateTime)>) -> (hashes:
    Vec<u64>)
    requires
        timetable.wf(),
        all_fit(*timetable, stop_id, boardings@),
    ensures
        hashes@ == boardings@.map_values(boarding_hash(*timetable, stop_id)),
{
    let mut hashes: Vec<u64> = Vec::new();
    let mut at: usize = 0;
    while at < boardings.len()
        invariant
            at <= boardings@.len(),
            timetable.wf(),
            all_fit(*timetable, stop_id, boardings@),
            hashes@ == boardings@.take(at as int).map_values(boarding_hash(*timetable, stop_id)),
        decreases boardings@.len() - at,
    {
        let boarding = boardings[at];
        assert(boarding_fits(*timetable, stop_id, boardings@[at as int]));
        let journey = timetable.find_journey(boarding.0).unwrap();
        let hash: u64 = journey.hash_route(stop_id).unwrap();
        hashes.push(hash);
        proof {
            let before = boardings@.take(at as int);
            assert(boardings@.take(at + 1) == before.push(boarding));
            before.lemma_push_map_commute(boarding_hash(*timetable, stop_id), boarding);
        }
        at += 1;
    }
    assert(boardings@.take(at as int) == boardings@);
    hashes
}

/// The rides for which a passenger who arrives at the stop at `arrival_at` on
/// the journey `previous` has the time to change, in their order.
fn keep_with_time_to_change(
    timetable: &Timetable,
    stop_id: i32,
    previous: i32,
    arrival_at: DateTime,
    boardings: &Vec<(i32, DateTime)>,
) -> (kept: Vec<(i32, DateTime)>)
    requires
        timetable.wf(),
        timetable.has_journey(previous),
        arrival_at.wf(),
        all_fit(*timetable, stop_id, boardings@),
    ensures
        kept@ == boardings@.filter(
            has_time_to_change(*timetable, stop_id, previous, arrival_at.timestamp()),
        ),
        all_from(kept@, boardings@),
{
    let mut kept: Vec<(i32, DateTime)> = Vec::new();
    let mut at: usize = 0;
    while at < boardings.len()
        invariant
            at <= boardings@.len(),
            timetable.wf(),
            timetable.has_journey(previous),
            arrival_at.wf(),
            all_fit(*timetable, stop_id, boardings@),
            kept@ == boardings@.take(at as int).filter(
                has_time_to_change(*timetable, stop_id, previous, arrival_at.timestamp()),
            ),
            all_from(kept@, boardings@),
        decreases boardings@.len() - at,
    {
        let boarding = boardings[at];
        assert(boarding_fits(*timetable, stop_id, boardings@[at as int]));
        let minutes: i16 = get_exchange_time(timetable, stop_id, previous, boarding.0, boarding.1);
        let waiting: i64 = boarding.1.seconds_since(arrival_at);
        proof {
            let before = boardings@.take(at as int);
            assert(boardings@.take(at + 1) == before.push(boarding));
            before.lemma_filter_push(
                boarding,
                has_time_to_change(*timetable, stop_id, previous, arrival_at.timestamp()),
            );
        }
        if 60 * (minutes as i64) <= waiting {
            kept.push(boarding);
            assert(boardings@[at as int] == boarding);
        }
        at += 1;
    }
    assert(boardings@.take(at as int) == boardings@);
    kept
}

/// The rides that a passenger can board at the stop from `departure_at` on,
/// in the order of their departure: of the journeys that leave the stop
/// within the hours that follow, for each way from the stop on the first to
/// leave, but none that goes a way of `routes_to_ignore`; and, for a passenger
/// who arrives on the journey `previous_journey_id`, none that leaves before
/// the change is made.
pub fn next_departures(
    timetable: &Timetable,
    departure_stop_id: i32,
    departure_at: DateTime,
    routes_to_ignore: Option<FxHashSet<u64>>,
    previous_journey_id: Option<i32>,
) -> (departures: Vec<(i32, DateTime)>)
    requires
        timetable.wf(),
        departure_at.wf(),
        i32::MIN + 2 <= departure_at.date.days <= i32::MAX - 2,
        previous_journey_id matches Some(id) ==> timetable.has_journey(id),
    ensures
        departures@ == next_departures_spec(
            *timetable,
            departure_stop_id,
            departure_at,
            match routes_to_ignore {
                Some(hashes) => hashes@,
                None => Set::empty(),
            },
            previous_journey_id,
        ),
        all_fit(*timetable, departure_stop_id, departures@),
        all_go_new_ways(
            *timetable,
            departure_stop_id,
            departures@,
            match routes_to_ignore {
                Some(hashes) => hashes@,
                None => Set::empty(),
            },
        ),
        forall|i: int|
            0 <= i < departures@.len() ==> departure_at.timestamp() <= (
            #[trigger] departures@[i]).1.timestamp(),
        previous_journey_id matches Some(previous) ==> forall|i: int|
            0 <= i < departures@.len() ==> departure_at.timestamp() + 60 * exchange_time_spec(
                *timetable,
                departure_stop_id,
                previous,
                (#[trigger] departures@[i]).0,
                departures@[i].1,
            ) <= departures@[i].1.timestamp(),
{
    let today = departure_at.date();
    let (journeys_1, latest) = get_journeys(timetable, today, departure_stop_id);
    let threshold = latest.add_seconds(-DEPARTURE_WINDOW);
    let mut all: Vec<(i32, DateTime)> = journeys_1;
    let max_departure_at: DateTime;
    if threshold.is_before(departure_at) {
        let tomorrow = add_1_day(today);
        let (journeys_2, _) = get_journeys(timetable, tomorrow, departure_stop_id);
        let ghost first = all@;
        let mut journeys_2 = journeys_2;
        all.append(&mut journeys_2);
        max_departure_at = DateTime::new(tomorrow, create_time(EARLIEST_WINDOW_END, 0));
        proof {
            assert(tomorrow == Date { days: (departure_at.date.days + 1) as i32 });
            assert(all@ == candidates(*timetable, departure_stop_id, departure_at));
            assert(all_fit(*timetable, departure_stop_id, all@)) by {
                assert forall|i: int| 0 <= i < all@.len() implies boarding_fits(
                    *timetable,
                    departure_stop_id,
                    #[trigger] all@[i],
                ) by {
                    if i < first.len() {
                        assert(all@[i] == first[i]);
                    } else {
                        assert(all@[i] == departures_on(*timetable, tomorrow, departure_stop_id)[i
                            - first.len()]);
                    }
                }
            }
        }
    } else {
        let at_eight = DateTime::new(today, create_time(EARLIEST_WINDOW_END, 0));
        let in_four_hours = departure_at.add_seconds(DEPARTURE_WINDOW);
        max_departure_at = if in_four_hours.is_before(at_eight) {
            at_eight
        } else {
            in_four_hours
        };
    }
    proof {
        assert(max_departure_at.timestamp() == window_end(
            *timetable,
            departure_stop_id,
            departure_at,
        ));
        assert(all@ == candidates(*timetable, departure_stop_id, departure_at));
    }
    let in_window = keep_in_window(&all, departure_at, max_departure_at);
    proof {
        lemma_all_from_fit(*timetable, departure_stop_id, in_window@, all@);
    }
    let sorted = sort_boardings(&in_window);
    proof {
        lemma_all_from_fit(*timetable, departure_stop_id, sorted@, in_window@);
    }
    let hashes = hashes_of(timetable, departure_stop_id, &sorted);
    let ignored: FxHashSet<u64> = match routes_to_ignore {
        Some(hashes) => hashes,
        None => FxHashSet::default(),
    };
    let ghost ways = ignored@;
    let kept = keep_first_per_route(&sorted, &hashes, ignored);
    proof {
        assert forall|i: int| 0 <= i < kept@.len() implies !ways.contains(
            boarding_hash(*timetable, departure_stop_id)(#[trigger] kept@[i]),
        ) by {
            assert(is_fresh(kept@[i], sorted@, hashes@, ways));
            let k = choose|k: int|
                0 <= k < sorted@.len() && k < hashes@.len() && #[trigger] sorted@[k] == kept@[i]
                    && !ways.contains(hashes@[k]);
            assert(hashes@[k] == boarding_hash(*timetable, departure_stop_id)(sorted@[k]));
        }
        lemma_all_from_fit(*timetable, departure_stop_id, kept@, sorted@);
        lemma_all_from_window(
            kept@,
            sorted@,
            in_window@,
            all@,
            departure_at.timestamp(),
            max_departure_at.timestamp(),
        );
    }
    match previous_journey_id {
        Some(previous) => {
            let departures = keep_with_time_to_change(
                timetable,
                departure_stop_id,
                previous,
                departure_at,
                &kept,
            );
            proof {
                lemma_all_from_fit(*timetable, departure_stop_id, departures@, kept@);
                let pred = has_time_to_change(
                    *timetable,
                    departure_stop_id,
                    previous,
                    departure_at.timestamp(),
                );
                assert forall|i: int| 0 <= i < departures@.len() implies departure_at.timestamp()
                    <= (#[trigger] departures@[i]).1.timestamp() && pred(departures@[i])
                    && !ways.contains(
                    boarding_hash(*timetable, departure_stop_id)(departures@[i]),
                ) by {
                    assert(kept@.contains(departures@[i]));
                    let k = choose|k: int| 0 <= k < kept@.len() && kept@[k] == departures@[i];
                    kept@.lemma_filter_pred(pred, i);
                }
            }
            departures
        },
        None => kept,
    }
}

/// The ride is one of `boardings` whose fingerprint is not among `ignored`.
pub open spec fn is_fresh(
    boarding: (i32, DateTime),
    boardings: Seq<(i32, DateTime)>,
    hashes: Seq<u64>,
    ignored: Set<u64>,
) -> bool {
    exists|k: int|
        0 <= k < boardings.len() && k < hashes.len() && #[trigger] boardings[k] == boarding
            && !ignored.contains(hashes[k])
}

/// Every one of `kept` is one of `boardings` whose fingerprint is not among
/// `ignored`.
pub open spec fn all_fresh(
    kept: Seq<(i32, DateTime)>,
    boardings: Seq<(i32, DateTime)>,
    hashes: Seq<u64>,
    ignored: Set<u64>,
) -> bool {
    forall|i: int|
        0 <= i < kept.len() ==> is_fresh(#[trigger] kept[i], boardings, hashes, ignored)
}

/// No ride goes a way that is to be ignored.
pub open spec fn all_go_new_ways(
    timetable: Timetable,
    stop_id: i32,
    boardings: Seq<(i32, DateTime)>,
    ignored: Set<u64>,
) -> bool {
    forall|i: int|
        0 <= i < boardings.len() ==> !ignored.contains(
            boarding_hash(timetable, stop_id)(#[trigger] boardings[i]),
        )
}

/// Rides that are all among rides that fit the timetable fit it too.
pub proof fn lemma_all_from_fit(
    timetable: Timetable,
    stop_id: i32,
    part: Seq<(i32, DateTime)>,
    whole: Seq<(i32, DateTime)>,
)
    requires
        all_from(part, whole),
        all_fit(timetable, stop_id, whole),
    ensures
        all_fit(timetable, stop_id, part),
{
    assert forall|i: int| 0 <= i < part.len() implies boarding_fits(
        timetable,
        stop_id,
        #[trigger] part[i],
    ) by {
        assert(whole.contains(part[i]));
        let k = choose|k: int| 0 <= k < whole.len() && whole[k] == part[i];
        assert(boarding_fits(timetable, stop_id, whole[k]));
    }
}

/// Rides that were chosen among the rides of a window leave within it.
proof fn lemma_all_from_window(
    kept: Seq<(i32, DateTime)>,
    sorted: Seq<(i32, DateTime)>,
    in_window_rides: Seq<(i32, DateTime)>,
    all: Seq<(i32, DateTime)>,
    from: int,
    to: int,
)
    requires
        all_from(kept, sorted),
        all_from(sorted, in_window_rides),
        in_window_rides == all.filter(in_window(from, to)),
    ensures
        forall|i: int| 0 <= i < kept.len() ==> from <= (#[trigger] kept[i]).1.timestamp() <= to,
{
    assert forall|i: int| 0 <= i < kept.len() implies from <= (#[trigger] kept[i]).1.timestamp()
        <= to by {
        assert(sorted.contains(kept[i]));
        let k = choose|k: int| 0 <= k < sorted.len() && sorted[k] == kept[i];
        assert(in_window_rides.contains(sorted[k]));
        let m = choose|m: int| 0 <= m < in_window_rides.len() && in_window_rides[m] == sorted[k];
        all.lemma_filter_pred(in_window(from, to), m);
    }
}

/// Every one of the routes fits the timetable.
pub open spec fn all_routes_fit(timetable: Timetable, routes: Seq<RouteView>) -> bool {
    forall|i: int| 0 <= i < routes.len() ==> (#[trigger] routes[i]).fits(timetable)
}

/// The routes that `route` becomes by each of the rides, in their order, but
/// for the rides on journeys to ignore and the rides by which it cannot be
/// extended.
pub open spec fn connections_by(
    timetable: Timetable,
    route: RouteView,
    boardings: Seq<(i32, DateTime)>,
    journeys_to_ignore: Set<i32>,
) -> Seq<RouteView>
    decreases boardings.len(),
{
    if boardings.len() == 0 {
        Seq::empty()
    } else {
        let before = connections_by(timetable, route, boardings.drop_last(), journeys_to_ignore);
        let boarding = boardings.last();
        if journeys_to_ignore.contains(boarding.0) {
            before
        } else {
            match extend_spec(timetable, route, boarding.0, boarding.1.date, true) {
                Some(extended) => before.push(extended),
                None => before,
            }
        }
    }
}

/// The routes that `route` becomes by boarding, at the stop and the instant
/// at which it has arrived, a journey that is not to be ignored.
pub open spec fn get_connections_spec(
    timetable: Timetable,
    route: RouteView,
    journeys_to_ignore: Set<i32>,
) -> Seq<RouteView> {
    connections_by(
        timetable,
        route,
        next_departures_spec(
            timetable,
            route.arrival_stop_id(),
            route.arrival_at(),
            routes_to_ignore_spec(timetable, route),
            route.last_section().journey_id,
        ),
        journeys_to_ignore,
    )
}

/// A route that fits the timetable has arrived on a day near the timetable.
pub proof fn lemma_arrival_is_near(timetable: Timetable, route: RouteView)
    requires
        timetable.wf(),
        route.fits(timetable),
    ensures
        timetable.is_near(route.arrival_at().date),
        route.arrival_at().wf(),
        i32::MIN + 34 <= route.arrival_at().date.days <= i32::MAX - 34,
        route.last_section().journey_id matches Some(id) ==> timetable.has_journey(id),
{
    let last = route.sections[route.sections.len() - 1];
    assert(last.fits(timetable));
}

/// The rides that a route can board where it has arrived are boarded in
/// time: none is on the journey of its last ride, each leaves when the route
/// has arrived, or later, and, after a ride, when the change is made.
pub proof fn lemma_boards_other_journeys(
    timetable: Timetable,
    route: RouteView,
    boardings: Seq<(i32, DateTime)>,
    ways: Set<u64>,
)
    requires
        timetable.wf(),
        route.fits(timetable),
        ways == routes_to_ignore_spec(timetable, route),
        ways_are_known(timetable, route, route.sections.len() as int),
        all_fit(timetable, route.arrival_stop_id(), boardings),
        all_go_new_ways(timetable, route.arrival_stop_id(), boardings, ways),
        forall|i: int|
            0 <= i < boardings.len() ==> route.arrival_at().timestamp() <= (
            #[trigger] boardings[i]).1.timestamp(),
        route.last_section().journey_id.is_some() ==> forall|i: int|
            0 <= i < boardings.len() ==> route.arrival_at().timestamp() + 60 * exchange_time_spec(
                timetable,
                route.arrival_stop_id(),
                route.last_section().journey_id.unwrap(),
                (#[trigger] boardings[i]).0,
                boardings[i].1,
            ) <= boardings[i].1.timestamp(),
    ensures
        forall|i: int|
            0 <= i < boardings.len() ==> is_boarded_in_time(
                timetable,
                route,
                (#[trigger] boardings[i]).0,
                boardings[i].1.date,
                true,
            ),
{
    let stop_id = route.arrival_stop_id();
    let last = route.sections.len() - 1;
    assert(route.sections[last].fits(timetable));
    assert forall|i: int| 0 <= i < boardings.len() implies is_boarded_in_time(
        timetable,
        route,
        (#[trigger] boardings[i]).0,
        boardings[i].1.date,
        true,
    ) by {
        let boarding = boardings[i];
        assert(boarding_fits(timetable, stop_id, boarding));
        let boarded = DateTime {
            date: boarding.1.date,
            time: timetable.journey(boarding.0).departure_time_spec(stop_id).unwrap().0,
        };
        assert(boarded == boarding.1);
        if route.last_section().journey_id == Some(boarding.0) {
            let journey = timetable.journey(boarding.0);
            lemma_first_position(journey.stop_ids(), stop_id, 0);
            lemma_first_position(journey.stop_ids(), stop_id, 1);
            assert(journey.calls_at(stop_id));
            let hash = route_hash(journey.stop_ids(), stop_id);
            assert(route.sections[last].journey_id.is_some());
            assert(hash.is_some());
            assert(ways.contains(hash.unwrap()));
            assert(boarding_hash(timetable, stop_id)(boarding) == hash.unwrap());
            assert(!ways.contains(boarding_hash(timetable, stop_id)(boardings[i])));
        }
    }
}

/// The routes that `route` becomes by boarding, at the stop and the instant
/// at which it has arrived, a journey that is not to be ignored.
pub fn get_connections(
    timetable: &Timetable,
    route: &Route,
    journeys_to_ignore: &FxHashSet<i32>,
) -> (connections: Vec<Route>)
    requires
        timetable.wf(),
        route@.fits(*timetable),
    ensures
        views(connections@) == get_connections_spec(*timetable, route@, journeys_to_ignore@),
        all_routes_fit(*timetable, views(connections@)),
        all_succeed(*timetable, views(connections@), route@),
        all_ride_at_most(
            views(connections@),
            route@.rides().len() as int + 1,
        ),
{
    proof {
        lemma_arrival_is_near(*timetable, route@);
        assert forall|k: int| 0 <= k < route@.sections.len() implies (
        #[trigger] route@.sections[k].journey_id matches Some(id) ==> timetable.has_journey(id)) by {
            assert(route@.sections[k].fits(*timetable));
        }
    }
    let stop_id: i32 = route.arrival_stop_id();
    let routes_to_ignore = get_routes_to_ignore(timetable, route);
    let ghost ways = routes_to_ignore@;
    let boardings = next_departures(
        timetable,
        stop_id,
        route.arrival_at(),
        Some(routes_to_ignore),
        route.last_section().journey_id(),
    );
    proof {
        lemma_boards_other_journeys(*timetable, route@, boardings@, ways);
    }
    let mut connections: Vec<Route> = Vec::new();
    let mut at: usize = 0;
    assert(views(connections@) =~= Seq::empty());
    while at < boardings.len()
        invariant
            at <= boardings@.len(),
            timetable.wf(),
            route@.fits(*timetable),
            stop_id == route@.arrival_stop_id(),
            all_fit(*timetable, stop_id, boardings@),
            forall|i: int|
                0 <= i < boardings@.len() ==> is_boarded_in_time(
                    *timetable,
                    route@,
                    (#[trigger] boardings@[i]).0,
                    boardings@[i].1.date,
                    true,
                ),
            views(connections@) == connections_by(
                *timetable,
                route@,
                boardings@.take(at as int),
                journeys_to_ignore@,
            ),
            all_routes_fit(*timetable, views(connections@)),
            all_succeed(*timetable, views(connections@), route@),
            all_ride_at_most(
                views(connections@),
                route@.rides().len() as int + 1,
            ),
        decreases boardings@.len() - at,
    {
        let boarding = boardings[at];
        proof {
            assert(boardings@.take(at + 1).drop_last() == boardings@.take(at as int));
            assert(boardings@.take(at + 1).last() == boarding);
            assert(boarding_fits(*timetable, stop_id, boardings@[at as int]));
        }
        if !set_contains(journeys_to_ignore, boarding.0) {
            match route.extend(timetable, boarding.0, boarding.1.date(), true) {
                Some(extended) => {
                    proof {
                        lemma_extend_fits(*timetable, route@, boarding.0, boarding.1.date, true);
                        lemma_extend_answers(
                            *timetable,
                            route@,
                            boarding.0,
                            boarding.1.date,
                            true,
                        );
                        lemma_extend_rides(
                            *timetable,
                            route@,
                            boarding.0,
                            boarding.1.date,
                            true,
                        );
                        let before = views(connections@);
                        assert(views(connections@.push(extended)) =~= before.push(extended@));
                    }
                    connections.push(extended);
                },
                None => {},
            }
        }
        at += 1;
    }
    assert(boardings@.take(at as int) == boardings@);
    connections
}

} // verus!
