//! A route told line by line, for a reader.
use crate::routing::models::{RouteResult, RouteSectionResult};

use crate::timetable::{JourneyRouteEntry, Timetable};
use crate::utils::{DateTime, Time};
use vstd::prelude::*;

verus! {

/// One line of the account of a route.
#[derive(Clone, Copy, Debug, PartialEq, Eq, Structural)]
pub enum RouteLine {
    /// A walk of about so many minutes to a stop.
    Walk { minutes: i16, stop_id: i32 },
    /// The heading of a ride.
    Journey { journey_id: i32 },
    /// The instant at which a ride leaves.
    Departure { departure_at: DateTime },
    /// A call of a ride at a stop: the time of arrival, but at the stop where
    /// the ride begins, and the time of departure, but at the stop where it
    /// ends.
    Call { stop_id: i32, arrival_time: Option<Time>, departure_time: Option<Time> },
    /// The instant at which a ride arrives.
    Arrival { arrival_at: DateTime },
}

/// The call at which a ride begins and the calls that follow it up to the
/// stop at which the ride ends.
pub open spec fn calls_of(timetable: Timetable, section: RouteSectionResult) -> Seq<
    JourneyRouteEntry,
> {
    let journey = timetable.journey(section.journey_id.unwrap());
    let from = journey.departure_position(section.departure_stop_id);
    if from < journey.route@.len() {
        seq![journey.route@[from]] + journey.route_section_spec(
            section.departure_stop_id,
            section.arrival_stop_id,
        )
    } else {
        Seq::empty()
    }
}

/// The line of the call `at` among `calls`.
pub open spec fn call_line(calls: Seq<JourneyRouteEntry>, at: int) -> RouteLine {
    RouteLine::Call {
        stop_id: calls[at].stop_id,
        arrival_time: if at == 0 {
            None
        } else {
            calls[at].arrival_time
        },
        departure_time: if at == calls.len() - 1 {
            None
        } else {
            calls[at].departure_time
        },
    }
}

/// The lines of the first `count` calls.
pub open spec fn call_lines(calls: Seq<JourneyRouteEntry>, count: int) -> Seq<RouteLine> {
    Seq::new(count as nat, |at: int| call_line(calls, at))
}

/// A section can be told: a ride is on a journey of the timetable and states
/// its two instants, a walk states its minutes.
pub open spec fn can_be_told(timetable: Timetable, section: RouteSectionResult) -> bool {
    match section.journey_id {
        Some(id) => timetable.has_journey(id) && section.departure_at.is_some()
            && section.arrival_at.is_some(),
        None => section.duration.is_some(),
    }
}

/// The lines of a section.
pub open spec fn section_lines(timetable: Timetable, section: RouteSectionResult) -> Seq<
    RouteLine,
> {
    match section.journey_id {
        Some(id) => {
            let calls = calls_of(timetable, section);
            seq![
                RouteLine::Journey { journey_id: id },
                RouteLine::Departure { departure_at: section.departure_at.unwrap() },
            ] + call_lines(calls, calls.len() as int) + seq![
                RouteLine::Arrival { arrival_at: section.arrival_at.unwrap() },
            ]
        },
        None => seq![
            RouteLine::Walk {
                minutes: section.duration.unwrap(),
                stop_id: section.arrival_stop_id,
            },
        ],
    }
}

/// The lines of the first `count` sections.
pub open spec fn route_lines(timetable: Timetable, sections: Seq<RouteSectionResult>, count: int)
    -> Seq<RouteLine>
    decreases count,
{
    if count <= 0 {
        Seq::empty()
    } else {
        route_lines(timetable, sections, count - 1) + section_lines(timetable, sections[count - 1])
    }
}

impl RouteSectionResult {
    /// The lines of the section.
    pub fn describe(&self, timetable: &Timetable) -> (lines: Vec<RouteLine>)
        requires
            timetable.wf(),
            can_be_told(*timetable, *self),
        ensures
            lines@ == section_lines(*timetable, *self),
    {
        let mut lines: Vec<RouteLine> = Vec::new();
        match self.journey(timetable) {
            None => {
                lines.push(
                    RouteLine::Walk { minutes: self.duration.unwrap(), stop_id: self.arrival_stop_id },
                );
                assert(lines@ =~= section_lines(*timetable, *self));
            },
            Some(journey) => {
                lines.push(RouteLine::Journey { journey_id: journey.id });
                lines.push(RouteLine::Departure { departure_at: self.departure_at.unwrap() });
                let from: usize = journey.position_from(self.departure_stop_id, 0);
                let mut calls: Vec<JourneyRouteEntry> = Vec::new();
                if from < journey.route.len() {
                    calls.push(journey.route[from]);
                    let mut rest = journey.route_section(self.departure_stop_id, self.arrival_stop_id);
                    calls.append(&mut rest);
                }
                assert(calls@ =~= calls_of(*timetable, *self));
                let ghost heading = lines@;
                let mut at: usize = 0;
                while at < calls.len()
                    invariant
                        at <= calls@.len(),
                        lines@ == heading + call_lines(calls@, at as int),
                    decreases calls@.len() - at,
                {
                    let call = calls[at];
                    lines.push(
                        RouteLine::Call {
                            stop_id: call.stop_id,
                            arrival_time: if at == 0 {
                                None
                            } else {
                                call.arrival_time
                            },
                            departure_time: if at == calls.len() - 1 {
                                None
                            } else {
                                call.departure_time
                            },
                        },
                    );
                    assert(lines@ =~= heading + call_lines(calls@, at + 1));
                    at += 1;
                }
                lines.push(RouteLine::Arrival { arrival_at: self.arrival_at.unwrap() });
                assert(lines@ =~= section_lines(*timetable, *self));
            },
        }
        lines
    }
}

impl RouteResult {
    /// The account of the route: the lines of its sections, in order.
    pub fn describe(&self, timetable: &Timetable) -> (lines: Vec<RouteLine>)
        requires
            timetable.wf(),
            forall|i: int|
                0 <= i < self.sections@.len() ==> can_be_told(
                    *timetable,
                    #[trigger] self.sections@[i],
                ),
        ensures
            lines@ == route_lines(*timetable, self.sections@, self.sections@.len() as int),
    {
        let mut lines: Vec<RouteLine> = Vec::new();
        let mut at: usize = 0;
        while at < self.sections.len()
            invariant
                at <= self.sections@.len(),
                timetable.wf(),
                forall|i: int|
                    0 <= i < self.sections@.len() ==> can_be_told(
                        *timetable,
                        #[trigger] self.sections@[i],
                    ),
                lines@ == route_lines(*timetable, self.sections@, at as int),
            decreases self.sections@.len() - at,
        {
            let mut more = self.sections[at].describe(timetable);
            lines.append(&mut more);
            at += 1;
        }
        lines
    }
}

} // verus!
