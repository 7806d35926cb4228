//! The search as a state machine: what one attempt does to the state of the search, and
//! what a bounded run of attempts ends in.

use vstd::prelude::*;
use crate::evaluate::{verdict_for, Problem, Verdict};
use crate::model::{event_names, EventSpec, Placement, Room, ScheduleError, Time};
use crate::order::in_name_order;
use crate::slot::{advance, free_cell, grid_shape, in_grid};

verus! {

/// The state of a search.
pub struct SearchState {
    /// The grid: `grid[t][r]` is the position of the event placed in room `r` at time `t`.
    pub grid: Seq<Seq<Option<usize>>>,
    /// For each event, where it is placed.
    pub placed: Seq<Option<Placement>>,
    /// The cells of the placed events, in the order in which they were placed.
    pub history: Seq<Placement>,
    /// Where the selection of the next event starts looking.
    pub cursor: usize,
    /// The event under evaluation.
    pub current: Option<usize>,
    /// Whether the last attempt failed because a time derived from a `Sequential`
    /// constraint fell outside the grid.
    pub offset_stall: bool,
}

/// The state in which a search over `n` events starts: the grid is empty and no event is
/// placed or selected.
pub open spec fn initial(n: int, slots: int, rooms: int) -> SearchState {
    SearchState {
        grid: Seq::new(slots as nat, |t: int| Seq::new(rooms as nat, |r: int| None)),
        placed: Seq::new(n as nat, |k: int| None),
        history: Seq::empty(),
        cursor: 0,
        current: None,
        offset_stall: false,
    }
}

/// How many events are placed.
pub open spec fn placed_count(placed: Seq<Option<Placement>>) -> nat
    decreases placed.len(),
{
    if placed.len() == 0 {
        0
    } else {
        placed_count(placed.drop_last()) + if placed.last() is Some {
            1nat
        } else {
            0nat
        }
    }
}

/// Whether the state is one that a search over `n` events on a grid of `slots` time slots
/// and `rooms` rooms can be in: the grid and the placements of the events say the same,
/// every placement lies inside the grid, no two events share a cell, and the history holds
/// the cell of each placed event once.
pub open spec fn well_formed(s: SearchState, n: int, slots: int, rooms: int) -> bool {
    &&& grid_shape(s.grid, slots, rooms)
    &&& s.placed.len() == n
    &&& s.cursor < n || s.cursor == 0
    &&& s.current matches Some(k) ==> k < n && s.placed[k as int] is None
    &&& forall|k: int|
        0 <= k < n ==> (#[trigger] s.placed[k] matches Some(c) ==> in_grid(c, slots, rooms)
            && s.grid[c.time.time_slot as int][c.room.room_num as int] == Some(k as usize))
    &&& forall|t: int, r: int|
        0 <= t < slots && 0 <= r < rooms ==> (#[trigger] s.grid[t][r] matches Some(k) ==> k < n
            && s.placed[k as int] == Some(
            Placement { room: Room { room_num: r as usize }, time: Time { time_slot: t as usize } },
        ))
    &&& forall|i: int|
        0 <= i < s.history.len() ==> in_grid(#[trigger] s.history[i], slots, rooms)
            && s.grid[s.history[i].time.time_slot as int][s.history[i].room.room_num as int] is Some
    &&& forall|i: int, j: int|
        0 <= i < j < s.history.len() ==> #[trigger] s.history[i] != #[trigger] s.history[j]
    &&& placed_count(s.placed) == s.history.len()
}

/// Whether every event is placed.
pub open spec fn complete(s: SearchState) -> bool {
    s.history.len() == s.placed.len()
}

/// The first event at or after position `from` that is not placed.
pub open spec fn first_unplaced(placed: Seq<Option<Placement>>, from: int) -> Option<int>
    decreases placed.len() - from,
{
    if from < 0 || from >= placed.len() {
        None
    } else if placed[from] is None {
        Some(from)
    } else {
        first_unplaced(placed, from + 1)
    }
}

/// The event that selection lands on: the first unplaced event at or after the cursor, or,
/// if there is none, the first unplaced event from the start.
pub open spec fn next_event(placed: Seq<Option<Placement>>, cursor: int) -> Option<int> {
    match first_unplaced(placed, cursor) {
        Some(k) => Some(k),
        None => first_unplaced(placed, 0),
    }
}

/// Selection: an event that is already under evaluation stays selected. Otherwise the
/// cursor moves forward, wrapping around, to the next unplaced event, selects it, and comes
/// to rest behind it.
pub open spec fn select(s: SearchState) -> SearchState {
    if s.current is Some {
        s
    } else {
        match next_event(s.placed, s.cursor as int) {
            Some(k) => SearchState {
                current: Some(k as usize),
                cursor: advance(k, s.placed.len() as int) as usize,
                ..s
            },
            None => s,
        }
    }
}

/// Commitment: event `k` is written into cell `c`, the cell is pushed onto the history, and
/// no event is under evaluation any more.
pub open spec fn place(s: SearchState, k: int, c: Placement) -> SearchState {
    SearchState {
        grid: s.grid.update(
            c.time.time_slot as int,
            s.grid[c.time.time_slot as int].update(c.room.room_num as int, Some(k as usize)),
        ),
        placed: s.placed.update(k, Some(c)),
        history: s.history.push(c),
        current: None,
        ..s
    }
}

/// Retraction: the most recent placement is undone. Its cell is popped from the history and
/// cleared, and the event that was in it is unplaced. With nothing placed, nothing changes.
pub open spec fn retract(s: SearchState) -> SearchState {
    if s.history.len() == 0 {
        s
    } else {
        let c = s.history.last();
        let k = s.grid[c.time.time_slot as int][c.room.room_num as int].unwrap();
        SearchState {
            grid: s.grid.update(
                c.time.time_slot as int,
                s.grid[c.time.time_slot as int].update(c.room.room_num as int, None),
            ),
            placed: s.placed.update(k as int, None),
            history: s.history.drop_last(),
            ..s
        }
    }
}

/// One attempt, as the state it leaves and whether the search may go on: an event is
/// selected and its constraints are evaluated. If they can be met and the search finds a
/// free cell, the event is placed there; if not, the most recent placement is retracted and
/// the event stays selected. An unsupported combination of constraints ends the search
/// with the event selected.
pub open spec fn step(p: Problem, s: SearchState) -> (SearchState, Result<(), ScheduleError>) {
    let selected = select(s);
    match selected.current {
        None => (selected, Ok(())),
        Some(k) => match verdict_for(p, selected.placed, k as int) {
            Verdict::Unsupported => (
                selected,
                Err(ScheduleError::UnsupportedConstraintCombination),
            ),
            Verdict::Infeasible { offset } => (
                SearchState { offset_stall: offset, ..retract(selected) },
                Ok(()),
            ),
            Verdict::Feasible(d) => match free_cell(selected.grid, d, p.slots, p.rooms) {
                None => (SearchState { offset_stall: false, ..retract(selected) }, Ok(())),
                Some(c) => (
                    SearchState { offset_stall: false, ..place(selected, k as int, c) },
                    Ok(()),
                ),
            },
        },
    }
}

/// The error that a search ends in when it runs out of attempts.
pub open spec fn exhausted(s: SearchState) -> ScheduleError {
    if s.offset_stall {
        ScheduleError::InfeasibleSequentialOffset
    } else {
        ScheduleError::Unsatisfiable
    }
}

/// A run of at most `attempts` attempts from state `s`, as the state in which it stops and
/// how it ends: well in the first state in which every event is placed, with the error of
/// an attempt that fails for good, or, when the attempts are used up, with [`exhausted`].
pub open spec fn run(p: Problem, s: SearchState, attempts: nat) -> (
    SearchState,
    Result<(), ScheduleError>,
)
    decreases attempts,
{
    if complete(s) {
        (s, Ok(()))
    } else if attempts == 0 {
        (s, Err(exhausted(s)))
    } else {
        let (next, went) = step(p, s);
        match went {
            Err(e) => (next, Err(e)),
            Ok(_) => run(p, next, (attempts - 1) as nat),
        }
    }
}

/// Whether every name that a constraint of some event lists is the name of an event.
pub open spec fn references_known(events: Seq<EventSpec>) -> bool {
    forall|k: int, i: int, j: int|
        0 <= k < events.len() && 0 <= i < events[k].rules.len() && 0 <= j
            < events[k].rules[i].names.len() ==> event_names(events).contains(
            #[trigger] events[k].rules[i].names[j],
        )
}

/// The grid with the name of each event in place of its position.
pub open spec fn named_grid(events: Seq<EventSpec>, grid: Seq<Seq<Option<usize>>>) -> Seq<
    Seq<Option<Seq<char>>>,
> {
    Seq::new(
        grid.len(),
        |t: int|
            Seq::new(
                grid[t].len(),
                |r: int|
                    match grid[t][r] {
                        Some(k) => Some(events[k as int].name),
                        None => None,
                    },
            ),
    )
}

/// What scheduling `events` on a grid of `slots` time slots and `rooms` rooms ends in when
/// it may make `attempts` attempts: `UnknownEventReference` if a constraint lists a name of
/// no event; otherwise the result of the run, which visits the events in the order of their
/// names, with the finished grid on success.
pub open spec fn schedule_outcome(events: Seq<EventSpec>, rooms: int, slots: int, attempts: nat)
    -> Result<Seq<Seq<Option<Seq<char>>>>, ScheduleError> {
    if !references_known(events) {
        Err(ScheduleError::UnknownEventReference)
    } else {
        let sorted = in_name_order(events);
        let p = Problem { events: sorted, rooms, slots };
        let (last, ended) = run(p, initial(events.len() as int, slots, rooms), attempts);
        match ended {
            Ok(_) => Ok(named_grid(sorted, last.grid)),
            Err(e) => Err(e),
        }
    }
}

/// The state in which a search starts is well formed.
pub proof fn lemma_initial_well_formed(n: int, slots: int, rooms: int)
    requires
        0 <= n,
        0 <= slots,
        0 <= rooms,
    ensures
        well_formed(initial(n, slots, rooms), n, slots, rooms),
        !complete(initial(n, slots, rooms)) || n == 0,
{
    lemma_none_placed(initial(n, slots, rooms).placed);
}

proof fn lemma_none_placed(placed: Seq<Option<Placement>>)
    requires
        forall|k: int| 0 <= k < placed.len() ==> placed[k] is None,
    ensures
        placed_count(placed) == 0,
    decreases placed.len(),
{
    if placed.len() > 0 {
        lemma_none_placed(placed.drop_last());
    }
}

/// Selection keeps the state well formed, and while an event is unplaced it selects one.
pub proof fn lemma_select_well_formed(s: SearchState, n: int, slots: int, rooms: int)
    requires
        well_formed(s, n, slots, rooms),
        n <= usize::MAX,
        !complete(s),
    ensures
        well_formed(select(s), n, slots, rooms),
        select(s).current is Some,
        select(s).placed == s.placed,
        select(s).history == s.history,
        select(s).grid == s.grid,
{
    lemma_placed_count_full(s.placed);
    lemma_first_unplaced(s.placed, 0);
    lemma_first_unplaced(s.placed, s.cursor as int);
}

/// Placing an unplaced event in a free cell of the grid keeps the state well formed and
/// makes the history longer by one.
pub proof fn lemma_place_well_formed(
    s: SearchState,
    n: int,
    slots: int,
    rooms: int,
    k: int,
    c: Placement,
)
    requires
        well_formed(s, n, slots, rooms),
        n <= usize::MAX,
        0 <= k < n,
        s.placed[k] is None,
        in_grid(c, slots, rooms),
        s.grid[c.time.time_slot as int][c.room.room_num as int] is None,
    ensures
        well_formed(place(s, k, c), n, slots, rooms),
        place(s, k, c).history.len() == s.history.len() + 1,
{
    let after = place(s, k, c);
    lemma_placed_count_update(s.placed, k, Some(c));
    assert forall|m: int| 0 <= m < n implies (#[trigger] after.placed[m] matches Some(q)
        ==> in_grid(q, slots, rooms) && after.grid[q.time.time_slot as int][q.room.room_num as int]
        == Some(m as usize)) by {
        if m != k {
            assert(after.placed[m] == s.placed[m]);
        }
    }
    assert forall|t: int, r: int| 0 <= t < slots && 0 <= r < rooms implies (
    #[trigger] after.grid[t][r] matches Some(m) ==> m < n && after.placed[m as int] == Some(
        Placement { room: Room { room_num: r as usize }, time: Time { time_slot: t as usize } },
    )) by {
        if !(t == c.time.time_slot && r == c.room.room_num) {
            assert(after.grid[t][r] == s.grid[t][r]);
        }
    }
    assert forall|i: int| 0 <= i < after.history.len() implies in_grid(
        #[trigger] after.history[i],
        slots,
        rooms,
    ) && after.grid[after.history[i].time.time_slot as int][after.history[i].room.room_num as int] is Some by {
        if i < s.history.len() {
            assert(after.history[i] == s.history[i]);
        }
    }
    assert forall|i: int, j: int| 0 <= i < j < after.history.len() implies #[trigger]
        after.history[i] != #[trigger] after.history[j] by {
        assert(after.history[i] == s.history[i]);
        if j < s.history.len() {
            assert(after.history[j] == s.history[j]);
        }
    }
}

/// Retraction keeps the state well formed. Where something is placed, the event that was
/// placed last is unplaced afterwards, the cell it was in is empty, and the history is
/// shorter by exactly one.
pub proof fn lemma_retract_well_formed(s: SearchState, n: int, slots: int, rooms: int)
    requires
        well_formed(s, n, slots, rooms),
        n <= usize::MAX,
        slots <= usize::MAX,
        rooms <= usize::MAX,
    ensures
        well_formed(retract(s), n, slots, rooms),
        s.history.len() == 0 ==> retract(s) == s,
        s.history.len() > 0 ==> {
            let c = s.history.last();
            let k = s.grid[c.time.time_slot as int][c.room.room_num as int]->Some_0 as int;
            &&& 0 <= k < n
            &&& s.placed[k] == Some(c)
            &&& retract(s).placed[k] is None
            &&& retract(s).grid[c.time.time_slot as int][c.room.room_num as int] is None
            &&& retract(s).history.len() == s.history.len() - 1
            &&& retract(s).placed == s.placed.update(k, None)
        },
{
    if s.history.len() > 0 {
        let after = retract(s);
        let c = s.history.last();
        let k = s.grid[c.time.time_slot as int][c.room.room_num as int]->Some_0 as int;
        assert(s.history[s.history.len() - 1] == c);
        lemma_placed_count_update(s.placed, k, None);
        assert forall|m: int| 0 <= m < n implies (#[trigger] after.placed[m] matches Some(q)
            ==> in_grid(q, slots, rooms) && after.grid[q.time.time_slot as int][q.room.room_num as int]
            == Some(m as usize)) by {
            if m != k {
                assert(after.placed[m] == s.placed[m]);
            }
        }
        assert forall|t: int, r: int| 0 <= t < slots && 0 <= r < rooms implies (
        #[trigger] after.grid[t][r] matches Some(m) ==> m < n && after.placed[m as int] == Some(
            Placement { room: Room { room_num: r as usize }, time: Time { time_slot: t as usize } },
        )) by {
            if !(t == c.time.time_slot && r == c.room.room_num) {
                assert(after.grid[t][r] == s.grid[t][r]);
            }
        }
        assert forall|i: int| 0 <= i < after.history.len() implies in_grid(
            #[trigger] after.history[i],
            slots,
            rooms,
        ) && after.grid[after.history[i].time.time_slot as int][after.history[i].room.room_num as int] is Some by {
            assert(after.history[i] == s.history[i]);
            assert(s.history[i] != s.history[s.history.len() - 1]);
        }
        assert forall|i: int, j: int| 0 <= i < j < after.history.len() implies #[trigger]
            after.history[i] != #[trigger] after.history[j] by {
            assert(after.history[i] == s.history[i]);
            assert(after.history[j] == s.history[j]);
        }
    }
}

/// A run ends well exactly when it stops in a state in which every event is placed, and it
/// never ends with `UnknownEventReference`.
pub proof fn lemma_run_ends(p: Problem, s: SearchState, attempts: nat)
    ensures
        run(p, s, attempts).1 is Ok <==> complete(run(p, s, attempts).0),
        run(p, s, attempts).1 != Err::<(), ScheduleError>(ScheduleError::UnknownEventReference),
    decreases attempts,
{
    if !complete(s) && attempts > 0 {
        let (next, went) = step(p, s);
        if went is Ok {
            lemma_run_ends(p, next, (attempts - 1) as nat);
        }
    }
}

/// Whether scheduling ends with `UnknownEventReference` depends on the names alone: it does
/// exactly when a constraint lists a name of no event.
pub proof fn lemma_outcome_unknown(events: Seq<EventSpec>, rooms: int, slots: int, attempts: nat)
    ensures
        schedule_outcome(events, rooms, slots, attempts) == Err::<
            Seq<Seq<Option<Seq<char>>>>,
            ScheduleError,
        >(ScheduleError::UnknownEventReference) <==> !references_known(events),
{
    let p = Problem { events: in_name_order(events), rooms, slots };
    lemma_run_ends(p, initial(events.len() as int, slots, rooms), attempts);
}

/// Changing the placement of one event changes the number of placed events by what the
/// change adds or takes away.
pub proof fn lemma_placed_count_update(
    placed: Seq<Option<Placement>>,
    k: int,
    v: Option<Placement>,
)
    requires
        0 <= k < placed.len(),
    ensures
        placed_count(placed.update(k, v)) + (if placed[k] is Some {
            1nat
        } else {
            0nat
        }) == placed_count(placed) + (if v is Some {
            1nat
        } else {
            0nat
        }),
    decreases placed.len(),
{
    let after = placed.update(k, v);
    if k == placed.len() - 1 {
        assert(after.drop_last() =~= placed.drop_last());
    } else {
        assert(after.drop_last() =~= placed.drop_last().update(k, v));
        lemma_placed_count_update(placed.drop_last(), k, v);
    }
}

/// No more events are placed than there are events, and all are placed exactly when the
/// count says so.
pub proof fn lemma_placed_count_full(placed: Seq<Option<Placement>>)
    ensures
        placed_count(placed) <= placed.len(),
        placed_count(placed) == placed.len() <==> forall|k: int|
            0 <= k < placed.len() ==> placed[k] is Some,
    decreases placed.len(),
{
    if placed.len() > 0 {
        let front = placed.drop_last();
        lemma_placed_count_full(front);
        if placed_count(placed) == placed.len() {
            assert forall|k: int| 0 <= k < placed.len() implies placed[k] is Some by {
                if k < front.len() {
                    assert(front[k] == placed[k]);
                }
            }
        }
        if forall|k: int| 0 <= k < placed.len() ==> placed[k] is Some {
            assert forall|k: int| 0 <= k < front.len() implies front[k] is Some by {
                assert(front[k] == placed[k]);
            }
        }
    }
}

/// What [`first_unplaced`] finds: the event it names is unplaced and every event between
/// `from` and it is placed; it names none only if every event from `from` on is placed.
pub proof fn lemma_first_unplaced(placed: Seq<Option<Placement>>, from: int)
    requires
        0 <= from,
    ensures
        match first_unplaced(placed, from) {
            Some(k) => from <= k < placed.len() && placed[k] is None && forall|j: int|
                from <= j < k ==> placed[j] is Some,
            None => forall|j: int| from <= j < placed.len() ==> placed[j] is Some,
        },
    decreases placed.len() - from,
{
    if from < placed.len() && placed[from] is Some {
        lemma_first_unplaced(placed, from + 1);
    }
}

} // verus!
