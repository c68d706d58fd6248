//! How long it takes to change from one journey to another at a stop.
//!
//! The timetable answers in up to five ways, and the first answer counts: an
//! entry for the two journeys at the stop; an entry for their two operators at
//! the stop; the stop's own pair of times; an entry for the two operators
//! anywhere; the pair of times of the whole timetable. Of a pair of times the
//! first is for a change between two intercity journeys and the second for
//! any other change.
use crate::timetable::{ExchangeTimeAdministration, ExchangeTimeJourney, Timetable};
use crate::utils::{Date, DateTime};
use vstd::prelude::*;

verus! {

/// Whether a calendar marks the day with the given index. The first two
/// entries of a calendar stand for no day.
pub open spec fn calendar_bit(bits: Seq<u8>, index: int) -> bool {
    2 <= index < bits.len() && bits[index] == 1
}

/// Index under which the calendars of the exchange times hold a day: 2 for
/// the last day of the timetable, 3 for the day before, and so on.
pub open spec fn exchange_day_index(timetable: Timetable, date: Date) -> int {
    2 + (timetable.end_date.days - date.days + 1) - 1
}

/// Whether an entry is for these two journeys at this stop and holds on the
/// day.
pub open spec fn journey_pair_applies(
    timetable: Timetable,
    entry: ExchangeTimeJourney,
    stop_id: i32,
    journey_id_1: i32,
    journey_id_2: i32,
    date: Date,
) -> bool {
    &&& entry.stop_id == stop_id
    &&& entry.journey_id_1 == journey_id_1
    &&& entry.journey_id_2 == journey_id_2
    &&& match entry.bit_field_id {
        Some(id) => calendar_bit(
            timetable.bit_field(id).bits@,
            exchange_day_index(timetable, date),
        ),
        None => true,
    }
}

/// Minutes of the first entry from `from` on that is for these two journeys
/// at this stop and holds on the day.
pub open spec fn journey_pair_from(
    timetable: Timetable,
    stop_id: i32,
    journey_id_1: i32,
    journey_id_2: i32,
    date: Date,
    from: int,
) -> Option<i16>
    decreases timetable.exchange_times_journey@.len() - from,
{
    if from < 0 || from >= timetable.exchange_times_journey@.len() {
        None
    } else if journey_pair_applies(
        timetable,
        timetable.exchange_times_journey@[from],
        stop_id,
        journey_id_1,
        journey_id_2,
        date,
    ) {
        Some(timetable.exchange_times_journey@[from].duration)
    } else {
        journey_pair_from(timetable, stop_id, journey_id_1, journey_id_2, date, from + 1)
    }
}

/// Whether an entry is for these two operators at this stop (or, without a
/// stop, anywhere).
pub open spec fn administration_applies(
    entry: ExchangeTimeAdministration,
    stop_id: Option<i32>,
    administration_1: Seq<char>,
    administration_2: Seq<char>,
) -> bool {
    &&& entry.stop_id == stop_id
    &&& entry.administration_1@ == administration_1
    &&& entry.administration_2@ == administration_2
}

/// Minutes of the first entry from `from` on that is for these two operators
/// at this stop (or, without a stop, anywhere).
pub open spec fn administration_from(
    timetable: Timetable,
    stop_id: Option<i32>,
    administration_1: Seq<char>,
    administration_2: Seq<char>,
    from: int,
) -> Option<i16>
    decreases timetable.exchange_times_administration@.len() - from,
{
    if from < 0 || from >= timetable.exchange_times_administration@.len() {
        None
    } else if administration_applies(
        timetable.exchange_times_administration@[from],
        stop_id,
        administration_1,
        administration_2,
    ) {
        Some(timetable.exchange_times_administration@[from].duration)
    } else {
        administration_from(timetable, stop_id, administration_1, administration_2, from + 1)
    }
}

/// The designation of intercity journeys.
pub open spec fn intercity() -> Seq<char> {
    "IC"@
}

/// Of a pair of times, the one for a change between journeys of these two
/// kinds.
pub open spec fn exchange_time_at_stop_spec(
    exchange_time: (i16, i16),
    designation_1: Seq<char>,
    designation_2: Seq<char>,
) -> i16 {
    if designation_1 == intercity() && designation_2 == intercity() {
        exchange_time.0
    } else {
        exchange_time.1
    }
}

/// Minutes needed at the stop to change from the first journey to the second,
/// which leaves at `departure_at`.
pub open spec fn exchange_time_spec(
    timetable: Timetable,
    stop_id: i32,
    journey_id_1: i32,
    journey_id_2: i32,
    departure_at: DateTime,
) -> i16 {
    let journey_1 = timetable.journey(journey_id_1);
    let journey_2 = timetable.journey(journey_id_2);
    let by_journeys = journey_pair_from(
        timetable,
        stop_id,
        journey_id_1,
        journey_id_2,
        departure_at.date,
        0,
    );
    let at_stop = administration_from(
        timetable,
        Some(stop_id),
        journey_1.administration@,
        journey_2.administration@,
        0,
    );
    let anywhere = administration_from(
        timetable,
        None,
        journey_1.administration@,
        journey_2.administration@,
        0,
    );
    if by_journeys.is_some() {
        by_journeys.unwrap()
    } else if at_stop.is_some() {
        at_stop.unwrap()
    } else if timetable.has_stop(stop_id) && timetable.stop(stop_id).exchange_time.is_some() {
        exchange_time_at_stop_spec(
            timetable.stop(stop_id).exchange_time.unwrap(),
            journey_1.transport_designation@,
            journey_2.transport_designation@,
        )
    } else if anywhere.is_some() {
        anywhere.unwrap()
    } else {
        exchange_time_at_stop_spec(
            timetable.default_exchange_time,
            journey_1.transport_designation@,
            journey_2.transport_designation@,
        )
    }
}

/// Minutes of the first entry for these two journeys at this stop that holds
/// on the day of `departure_at`, if there is one.
pub fn exchange_time_journey_pair(
    timetable: &Timetable,
    stop_id: i32,
    journey_id_1: i32,
    journey_id_2: i32,
    departure_at: DateTime,
) -> (minutes: Option<i16>)
    requires
        timetable.wf(),
    ensures
        minutes == journey_pair_from(
            *timetable,
            stop_id,
            journey_id_1,
            journey_id_2,
            departure_at.date,
            0,
        ),
{
    let index: i64 = 2 + (timetable.end_date.days as i64 - departure_at.date.days as i64);
    let mut at: usize = 0;
    while at < timetable.exchange_times_journey.len()
        invariant
            at <= timetable.exchange_times_journey@.len(),
            timetable.wf(),
            index == exchange_day_index(*timetable, departure_at.date),
            journey_pair_from(
                *timetable,
                stop_id,
                journey_id_1,
                journey_id_2,
                departure_at.date,
                0,
            ) == journey_pair_from(
                *timetable,
                stop_id,
                journey_id_1,
                journey_id_2,
                departure_at.date,
                at as int,
            ),
        decreases timetable.exchange_times_journey@.len() - at,
    {
        let entry = timetable.exchange_times_journey[at];
        if entry.stop_id == stop_id && entry.journey_id_1 == journey_id_1 && entry.journey_id_2
            == journey_id_2 {
            let holds: bool = match entry.bit_field_id {
                Some(id) => {
                    match timetable.find_bit_field(id) {
                        Some(bit_field) => index >= 2 && (index as u64) < (
                        bit_field.bits.len() as u64) && bit_field.bits[index as usize] == 1,
                        None => false,
                    }
                },
                None => true,
            };
            if holds {
                return Some(entry.duration);
            }
        }
        at += 1;
    }
    None
}

/// Minutes of the first entry for these two operators at this stop (or,
/// without a stop, anywhere), if there is one.
pub fn exchange_time_administration(
    timetable: &Timetable,
    stop_id: Option<i32>,
    administration_1: &String,
    administration_2: &String,
) -> (minutes: Option<i16>)
    ensures
        minutes == administration_from(
            *timetable,
            stop_id,
            administration_1@,
            administration_2@,
            0,
        ),
{
    let mut at: usize = 0;
    while at < timetable.exchange_times_administration.len()
        invariant
            at <= timetable.exchange_times_administration@.len(),
            administration_from(*timetable, stop_id, administration_1@, administration_2@, 0)
                == administration_from(
                *timetable,
                stop_id,
                administration_1@,
                administration_2@,
                at as int,
            ),
        decreases timetable.exchange_times_administration@.len() - at,
    {
        let entry = &timetable.exchange_times_administration[at];
        let same_stop: bool = match (entry.stop_id, stop_id) {
            (Some(a), Some(b)) => a == b,
            (None, None) => true,
            _ => false,
        };
        if same_stop && entry.administration_1 == *administration_1 && entry.administration_2
            == *administration_2 {
            return Some(entry.duration);
        }
        at += 1;
    }
    None
}

/// Of a pair of times, the one for a change between journeys of these two
/// kinds.
pub fn exchange_time_at_stop(
    exchange_time: (i16, i16),
    designation_1: &String,
    designation_2: &String,
) -> (minutes: i16)
    ensures
        minutes == exchange_time_at_stop_spec(exchange_time, designation_1@, designation_2@),
{
    let intercity = "IC".to_owned();
    if *designation_1 == intercity && *designation_2 == intercity {
        exchange_time.0
    } else {
        exchange_time.1
    }
}

/// Minutes needed at the stop to change from the first journey to the second,
/// which leaves at `departure_at`.
pub fn get_exchange_time(
    timetable: &Timetable,
    stop_id: i32,
    journey_id_1: i32,
    journey_id_2: i32,
    departure_at: DateTime,
) -> (minutes: i16)
    requires
        timetable.wf(),
        timetable.has_journey(journey_id_1),
        timetable.has_journey(journey_id_2),
    ensures
        minutes == exchange_time_spec(
            *timetable,
            stop_id,
            journey_id_1,
            journey_id_2,
            departure_at,
        ),
{
    let journey_1 = timetable.find_journey(journey_id_1).unwrap();
    let journey_2 = timetable.find_journey(journey_id_2).unwrap();
    match exchange_time_journey_pair(timetable, stop_id, journey_id_1, journey_id_2, departure_at) {
        Some(minutes) => { return minutes; },
        None => {},
    }
    match exchange_time_administration(
        timetable,
        Some(stop_id),
        &journey_1.administration,
        &journey_2.administration,
    ) {
        Some(minutes) => { return minutes; },
        None => {},
    }
    match timetable.find_stop(stop_id) {
        Some(stop) => {
            match stop.exchange_time {
                Some(exchange_time) => {
                    return exchange_time_at_stop(
                        exchange_time,
                        &journey_1.transport_designation,
                        &journey_2.transport_designation,
                    );
                },
                None => {},
            }
        },
        None => {},
    }
    match exchange_time_administration(
        timetable,
        None,
        &journey_1.administration,
        &journey_2.administration,
    ) {
        Some(minutes) => { return minutes; },
        None => {},
    }
    exchange_time_at_stop(
        timetable.default_exchange_time,
        &journey_1.transport_designation,
        &journey_2.transport_designation,
    )
}

} // verus!
