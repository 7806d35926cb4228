//! Scheduling from start to end: events and their constraints in, a timetable or an error
//! out.

use vstd::prelude::*;
use crate::evaluate::find_event;
use crate::laws::{all_rules_hold, every_event_once, lemma_outcome_valid, lists_complete};
use crate::machine::{lemma_outcome_unknown, references_known, schedule_outcome};
use crate::model::{event_names, events_of, names_of, Event, ScheduleError};
use crate::order::sorted_events;
use crate::scheduler::{name_cells, Scheduler};
use crate::sound::distinct_names;

verus! {

/// The model of what [`create_schedule`] returns: the names in the cells of the grid, or
/// the error.
pub open spec fn schedule_result_of(res: Result<Vec<Vec<Option<&str>>>, ScheduleError>) -> Result<
    Seq<Seq<Option<Seq<char>>>>,
    ScheduleError,
> {
    match res {
        Ok(grid) => Ok(name_cells(grid@)),
        Err(e) => Err(e),
    }
}

/// Whether every name that a constraint of some event lists is the name of an event.
pub fn references_ok(events: &[Event]) -> (b: bool)
    ensures
        b == references_known(events_of(events@)),
{
    let ghost evs = events_of(events@);
    let mut k: usize = 0;
    while k < events.len()
        invariant
            k <= events.len(),
            evs == events_of(events@),
            forall|a: int, i: int, j: int|
                0 <= a < k && 0 <= i < evs[a].rules.len() && 0 <= j < evs[a].rules[i].names.len()
                    ==> event_names(evs).contains(#[trigger] evs[a].rules[i].names[j]),
        decreases events.len() - k,
    {
        let event = &events[k];
        let mut i: usize = 0;
        while i < event.constraints.len()
            invariant
                k < events.len(),
                event == &events[k as int],
                i <= event.constraints.len(),
                evs == events_of(events@),
                evs[k as int].rules.len() == event.constraints.len(),
                forall|b: int, j: int|
                    0 <= b < i && 0 <= j < evs[k as int].rules[b].names.len() ==> event_names(
                        evs,
                    ).contains(#[trigger] evs[k as int].rules[b].names[j]),
            decreases event.constraints.len() - i,
        {
            let listed = event.constraints[i].names();
            assert(evs[k as int].rules[i as int] == event.constraints[i as int]@);
            let mut j: usize = 0;
            while j < listed.len()
                invariant
                    k < events.len(),
                    i < event.constraints.len(),
                    event == &events[k as int],
                    j <= listed.len(),
                    evs == events_of(events@),
                    evs[k as int].rules.len() == event.constraints.len(),
                    names_of(listed@) == evs[k as int].rules[i as int].names,
                    forall|c: int|
                        0 <= c < j ==> event_names(evs).contains(
                            #[trigger] evs[k as int].rules[i as int].names[c],
                        ),
                decreases listed.len() - j,
            {
                let found = find_event(events, listed[j]);
                proof {
                    event_names(evs).index_of_first_ensures(listed[j as int]@);
                    assert(evs[k as int].rules[i as int].names[j as int] == listed[j as int]@);
                }
                if found.is_none() {
                    return false;
                }
                j += 1;
            }
            i += 1;
        }
        k += 1;
    }
    true
}

/// Searches for a timetable: a grid of `time_slots` rows of `room_count` cells in which
/// every event has a cell. The events are visited in the order of their names, and at most
/// `max_attempts` attempts are made.
///
/// Fails with `UnknownEventReference` if a constraint lists a name of no event, with
/// `UnsupportedConstraintCombination` if an evaluation meets two constraints that both try
/// to fix a time or a room, and with `InfeasibleSequentialOffset` or `Unsatisfiable` when
/// the attempts are used up.
///
/// On success, where no two events have the same name, every event is in exactly one cell;
/// where moreover every constraint is in the list of every event that it lists, the grid
/// meets every constraint.
pub fn create_schedule<'a>(
    raw_events: &[Event<'a>],
    room_count: usize,
    time_slots: usize,
    max_attempts: usize,
) -> (res: Result<Vec<Vec<Option<&'a str>>>, ScheduleError>)
    requires
        time_slots * room_count <= usize::MAX,
    ensures
        schedule_result_of(res) == schedule_outcome(
            events_of(raw_events@),
            room_count as int,
            time_slots as int,
            max_attempts as nat,
        ),
        res == Err::<Vec<Vec<Option<&'a str>>>, ScheduleError>(
            ScheduleError::UnknownEventReference,
        ) <==> !references_known(events_of(raw_events@)),
        res matches Ok(grid) ==> {
            let cells = name_cells(grid@);
            let events = events_of(raw_events@);
            &&& cells.len() == time_slots
            &&& forall|t: int| 0 <= t < time_slots ==> (#[trigger] cells[t]).len() == room_count
            &&& distinct_names(events) ==> every_event_once(cells, events)
            &&& distinct_names(events) && lists_complete(events) ==> all_rules_hold(events, cells)
        },
{
    if !references_ok(raw_events) {
        return Err(ScheduleError::UnknownEventReference);
    }
    let sorted = sorted_events(raw_events);
    proof {
        lemma_outcome_valid(
            events_of(raw_events@),
            room_count as int,
            time_slots as int,
            max_attempts as nat,
        );
        lemma_outcome_unknown(
            events_of(raw_events@),
            room_count as int,
            time_slots as int,
            max_attempts as nat,
        );
    }
    let mut scheduler = Scheduler::new(sorted, room_count, time_slots);
    match scheduler.run(max_attempts) {
        Err(e) => Err(e),
        Ok(()) => Ok(scheduler.names_grid()),
    }
}

} // verus!
