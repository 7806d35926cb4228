//! The scheduler: the state of a search and the operations that an attempt is made of.

use vstd::prelude::*;
use crate::evaluate::{evaluate, problem_of, Evaluation, Problem};
use crate::machine::{
    complete, first_unplaced, initial, lemma_initial_well_formed, lemma_place_well_formed,
    lemma_placed_count_full, lemma_retract_well_formed, lemma_run_ends,
    lemma_select_well_formed, named_grid, next_event, place, retract, run, select, step,
    well_formed, SearchState,
};
use crate::model::{events_of, Event, Placement, ScheduleError};
use crate::slot::{find_slot, grid_of, in_grid};
use crate::sound::{
    admissible, consistent, distinct_names, lemma_place_consistent, lemma_unplace_consistent,
    lemma_verdict_sound, settled,
};

verus! {

/// The state of one search: the events in the order in which they are visited, the grid,
/// and what has been placed so far.
#[derive(Debug)]
pub struct Scheduler<'a> {
    pub events: Vec<Event<'a>>,
    pub room_count: usize,
    pub time_slots: usize,
    /// `grid[t][r]` is the position in `events` of the event in room `r` at time `t`.
    pub grid: Vec<Vec<Option<usize>>>,
    /// For each event, where it is placed.
    pub placed: Vec<Option<Placement>>,
    /// The cells of the placed events, most recent last.
    pub history: Vec<Placement>,
    /// Where selection starts looking for the next event.
    pub cursor: usize,
    /// The event under evaluation.
    pub current: Option<usize>,
    /// Whether the last attempt failed on a `Sequential` time outside the grid.
    pub offset_stall: bool,
}

impl<'a> View for Scheduler<'a> {
    type V = SearchState;

    open spec fn view(&self) -> SearchState {
        SearchState {
            grid: grid_of(self.grid@),
            placed: self.placed@,
            history: self.history@,
            cursor: self.cursor,
            current: self.current,
            offset_stall: self.offset_stall,
        }
    }
}

/// The names in a grid of names, cell by cell.
pub open spec fn name_cells(rows: Seq<Vec<Option<&str>>>) -> Seq<Seq<Option<Seq<char>>>> {
    Seq::new(
        rows.len(),
        |t: int|
            Seq::new(
                rows[t]@.len(),
                |r: int|
                    match rows[t]@[r] {
                        Some(name) => Some(name@),
                        None => None,
                    },
            ),
    )
}

/// The event that selection lands on, looking from `cursor`.
fn next_unplaced(placed: &Vec<Option<Placement>>, cursor: usize) -> (r: Option<usize>)
    ensures
        match r {
            Some(k) => next_event(placed@, cursor as int) == Some(k as int) && k < placed.len()
                && placed[k as int] is None,
            None => next_event(placed@, cursor as int) is None,
        },
{
    let n = placed.len();
    let mut i: usize = cursor;
    while i < n && placed[i].is_some()
        invariant
            n == placed.len(),
            cursor <= i,
            first_unplaced(placed@, cursor as int) == first_unplaced(placed@, i as int),
        decreases n - i,
    {
        i += 1;
    }
    if i < n {
        return Some(i);
    }
    i = 0;
    while i < n && placed[i].is_some()
        invariant
            n == placed.len(),
            first_unplaced(placed@, cursor as int) is None,
            first_unplaced(placed@, 0) == first_unplaced(placed@, i as int),
        decreases n - i,
    {
        i += 1;
    }
    if i < n {
        Some(i)
    } else {
        None
    }
}

impl<'a> Scheduler<'a> {
    /// The fixed data of the search.
    pub open spec fn problem(&self) -> Problem {
        problem_of(self.events@, self.room_count, self.time_slots)
    }

    /// Whether the state is well formed (see [`well_formed`]) and the grid has no more
    /// cells than can be counted.
    pub open spec fn wf(&self) -> bool {
        &&& well_formed(
            self@,
            self.events.len() as int,
            self.time_slots as int,
            self.room_count as int,
        )
        &&& self.time_slots * self.room_count <= usize::MAX
    }

    /// Whether the placed events agree with their constraints (see [`consistent`]).
    pub open spec fn sound(&self) -> bool {
        consistent(events_of(self.events@), self.placed@)
    }

    /// Whether `other` searches the same problem.
    pub open spec fn same_problem(&self, other: &Self) -> bool {
        &&& self.events == other.events
        &&& self.room_count == other.room_count
        &&& self.time_slots == other.time_slots
    }

    /// A search over `events`, visited in the order given, on an empty grid of
    /// `time_slots` time slots and `room_count` rooms.
    pub fn new(events: Vec<Event<'a>>, room_count: usize, time_slots: usize) -> (s: Self)
        requires
            time_slots * room_count <= usize::MAX,
        ensures
            s.wf(),
            s.sound(),
            s@ == initial(events.len() as int, time_slots as int, room_count as int),
            s.events == events,
            s.room_count == room_count,
            s.time_slots == time_slots,
    {
        let mut grid: Vec<Vec<Option<usize>>> = Vec::new();
        let mut t: usize = 0;
        while t < time_slots
            invariant
                t <= time_slots,
                grid.len() == t,
                forall|a: int, b: int|
                    0 <= a < t ==> (#[trigger] grid[a]).len() == room_count && (0 <= b
                        < room_count ==> #[trigger] grid[a][b] is None),
            decreases time_slots - t,
        {
            let mut row: Vec<Option<usize>> = Vec::new();
            let mut r: usize = 0;
            while r < room_count
                invariant
                    r <= room_count,
                    row.len() == r,
                    forall|b: int| 0 <= b < r ==> row[b] is None,
                decreases room_count - r,
            {
                row.push(None);
                r += 1;
            }
            grid.push(row);
            t += 1;
        }
        let mut placed: Vec<Option<Placement>> = Vec::new();
        let mut k: usize = 0;
        while k < events.len()
            invariant
                k <= events.len(),
                placed.len() == k,
                forall|m: int| 0 <= m < k ==> placed[m] is None,
            decreases events.len() - k,
        {
            placed.push(None);
            k += 1;
        }
        let s = Scheduler {
            events,
            room_count,
            time_slots,
            grid,
            placed,
            history: Vec::new(),
            cursor: 0,
            current: None,
            offset_stall: false,
        };
        proof {
            let start = initial(s.events.len() as int, time_slots as int, room_count as int);
            assert forall|a: int| 0 <= a < time_slots implies s@.grid[a] =~= start.grid[a] by {
                assert forall|b: int| 0 <= b < room_count implies s@.grid[a][b]
                    == start.grid[a][b] by {
                    assert(s.grid[a][b] is None);
                }
            }
            assert(s@.grid =~= start.grid);
            assert(s@.placed =~= start.placed);
            assert(s@.history =~= start.history);
            lemma_initial_well_formed(
                s.events.len() as int,
                time_slots as int,
                room_count as int,
            );
            assert forall|k: int, i: int, j: int| #[trigger]
                settled(events_of(s.events@), s.placed@, k, i, j) by {}
        }
        s
    }

    /// Whether every event is placed.
    pub fn is_complete(&self) -> (b: bool)
        requires
            self.wf(),
        ensures
            b == complete(self@),
            b <==> forall|k: int| 0 <= k < self.placed.len() ==> self.placed[k] is Some,
    {
        proof {
            lemma_placed_count_full(self.placed@);
        }
        self.history.len() == self.placed.len()
    }

    /// Selects the event to evaluate next and returns its position: the event that is
    /// still under evaluation, or else the next unplaced event from the cursor on.
    pub fn select(&mut self) -> (k: usize)
        requires
            old(self).wf(),
            !complete(old(self)@),
        ensures
            final(self).wf(),
            final(self).same_problem(old(self)),
            final(self)@ == select(old(self)@),
            final(self).current == Some(k),
            k < final(self).events.len(),
            final(self).placed@ == old(self).placed@,
    {
        match self.current {
            Some(k) => k,
            None => {
                proof {
                    lemma_select_well_formed(
                        self@,
                        self.events.len() as int,
                        self.time_slots as int,
                        self.room_count as int,
                    );
                }
                let found = next_unplaced(&self.placed, self.cursor);
                let k = found.unwrap();
                self.current = Some(k);
                self.cursor = if k + 1 >= self.placed.len() {
                    0
                } else {
                    k + 1
                };
                k
            },
        }
    }

    /// Places event `k` in cell `c`: writes it into the grid, pushes the cell onto the
    /// history and ends the evaluation of the event.
    pub fn place(&mut self, k: usize, c: Placement)
        requires
            old(self).wf(),
            k < old(self).events.len(),
            old(self).placed[k as int] is None,
            in_grid(c, old(self).time_slots as int, old(self).room_count as int),
            old(self)@.grid[c.time.time_slot as int][c.room.room_num as int] is None,
        ensures
            final(self).wf(),
            final(self).same_problem(old(self)),
            final(self)@ == place(old(self)@, k as int, c),
            final(self).history@.len() == old(self).history@.len() + 1,
            distinct_names(events_of(old(self).events@)) && old(self).sound() && admissible(
                events_of(old(self).events@),
                old(self).placed@,
                k as int,
                c,
            ) ==> final(self).sound(),
    {
        proof {
            lemma_place_well_formed(
                self@,
                self.events.len() as int,
                self.time_slots as int,
                self.room_count as int,
                k as int,
                c,
            );
            if distinct_names(events_of(self.events@)) && self.sound() && admissible(
                events_of(self.events@),
                self.placed@,
                k as int,
                c,
            ) {
                lemma_place_consistent(events_of(self.events@), self.placed@, k as int, c);
            }
        }
        self.grid[c.time.time_slot][c.room.room_num] = Some(k);
        self.history.push(c);
        self.placed[k] = Some(c);
        self.current = None;
        assert(self@.grid =~= place(old(self)@, k as int, c).grid);
    }

    /// Undoes the most recent placement and returns the position of the event that it
    /// belonged to; with nothing placed, changes nothing and returns `None`.
    ///
    /// After a retraction the event is unplaced, its former cell is empty, and the history
    /// is shorter by one.
    pub fn retract(&mut self) -> (undone: Option<usize>)
        requires
            old(self).wf(),
        ensures
            final(self).wf(),
            final(self).same_problem(old(self)),
            final(self)@ == retract(old(self)@),
            final(self).current == old(self).current,
            old(self).history@.len() == 0 ==> undone is None,
            old(self).history@.len() > 0 ==> {
                let c = old(self).history@.last();
                &&& undone matches Some(k)
                &&& k < old(self).events.len()
                &&& old(self).placed[k as int] == Some(c)
                &&& final(self).placed[k as int] is None
                &&& final(self)@.grid[c.time.time_slot as int][c.room.room_num as int] is None
                &&& final(self).history@.len() == old(self).history@.len() - 1
                &&& final(self).history@ == old(self).history@.drop_last()
            },
            old(self).sound() ==> final(self).sound(),
    {
        if self.history.len() == 0 {
            return None;
        }
        let c = self.history[self.history.len() - 1];
        assert(grid_of(self.grid@)[c.time.time_slot as int] == self.grid@[c.time.time_slot as int]@);
        let k = self.grid[c.time.time_slot][c.room.room_num].unwrap();
        proof {
            lemma_retract_well_formed(
                self@,
                self.events.len() as int,
                self.time_slots as int,
                self.room_count as int,
            );
            if self.sound() {
                lemma_unplace_consistent(events_of(self.events@), self.placed@, k as int);
            }
        }
        self.history.pop();
        self.grid[c.time.time_slot][c.room.room_num] = None;
        self.placed[k] = None;
        assert(self@.grid =~= retract(old(self)@).grid);
        assert(self@.history =~= retract(old(self)@).history);
        Some(k)
    }

    /// Makes one attempt: selects an event, evaluates its constraints, and either places
    /// the event in the cell that the search for a free cell accepts, or retracts the most
    /// recent placement.
    ///
    /// Fails with `UnsupportedConstraintCombination` when the evaluation meets two
    /// constraints that both try to fix the time or the room of the event.
    pub fn step(&mut self) -> (res: Result<(), ScheduleError>)
        requires
            old(self).wf(),
            !complete(old(self)@),
        ensures
            final(self).wf(),
            final(self).same_problem(old(self)),
            (final(self)@, res) == step(old(self).problem(), old(self)@),
            distinct_names(events_of(old(self).events@)) && old(self).sound()
                ==> final(self).sound(),
    {
        let k = self.select();
        let verdict = evaluate(
            self.events.as_slice(),
            &self.placed,
            self.time_slots,
            self.room_count,
            k,
        );
        match verdict {
            Evaluation::Unsupported => Err(ScheduleError::UnsupportedConstraintCombination),
            Evaluation::Infeasible { offset } => {
                self.retract();
                self.offset_stall = offset;
                Ok(())
            },
            Evaluation::Feasible(req) => {
                proof {
                    lemma_verdict_sound(self.problem(), self.placed@, k as int, req@);
                }
                match find_slot(&self.grid, &req, self.time_slots, self.room_count) {
                    None => {
                        self.retract();
                        self.offset_stall = false;
                        Ok(())
                    },
                    Some(c) => {
                        assert(admissible(events_of(self.events@), self.placed@, k as int, c));
                        self.place(k, c);
                        self.offset_stall = false;
                        Ok(())
                    },
                }
            },
        }
    }

    /// Makes attempts until every event is placed, an attempt fails for good, or
    /// `max_attempts` attempts have been made.
    ///
    /// Out of attempts, fails with `InfeasibleSequentialOffset` if the last attempt failed
    /// on a `Sequential` time outside the grid, and with `Unsatisfiable` otherwise.
    pub fn run(&mut self, max_attempts: usize) -> (res: Result<(), ScheduleError>)
        requires
            old(self).wf(),
        ensures
            final(self).wf(),
            final(self).same_problem(old(self)),
            (final(self)@, res) == run(old(self).problem(), old(self)@, max_attempts as nat),
            res is Ok <==> complete(final(self)@),
            res != Err::<(), ScheduleError>(ScheduleError::UnknownEventReference),
            distinct_names(events_of(old(self).events@)) && old(self).sound()
                ==> final(self).sound(),
    {
        proof {
            lemma_run_ends(self.problem(), self@, max_attempts as nat);
        }
        let mut left: usize = max_attempts;
        loop
            invariant
                self.wf(),
                self.same_problem(old(self)),
                run(old(self).problem(), old(self)@, max_attempts as nat) == run(
                    self.problem(),
                    self@,
                    left as nat,
                ),
                distinct_names(events_of(old(self).events@)) && old(self).sound()
                    ==> self.sound(),
            decreases left,
        {
            if self.is_complete() {
                return Ok(());
            }
            if left == 0 {
                return Err(
                    if self.offset_stall {
                        ScheduleError::InfeasibleSequentialOffset
                    } else {
                        ScheduleError::Unsatisfiable
                    },
                );
            }
            match self.step() {
                Err(e) => {
                    return Err(e);
                },
                Ok(()) => {},
            }
            left -= 1;
        }
    }

    /// The grid with the name of each placed event in its cell.
    pub fn names_grid(&self) -> (g: Vec<Vec<Option<&'a str>>>)
        requires
            self.wf(),
        ensures
            name_cells(g@) == named_grid(events_of(self.events@), self@.grid),
    {
        let mut g: Vec<Vec<Option<&'a str>>> = Vec::new();
        let mut t: usize = 0;
        while t < self.time_slots
            invariant
                self.wf(),
                t <= self.time_slots,
                g.len() == t,
                forall|a: int|
                    0 <= a < t ==> name_cells(g@)[a] == named_grid(
                        events_of(self.events@),
                        self@.grid,
                    )[a],
            decreases self.time_slots - t,
        {
            let mut row: Vec<Option<&'a str>> = Vec::new();
            let mut r: usize = 0;
            assert(self@.grid[t as int] == self.grid@[t as int]@);
            while r < self.room_count
                invariant
                    self.wf(),
                    t < self.time_slots,
                    r <= self.room_count,
                    row.len() == r,
                    forall|b: int|
                        0 <= b < r ==> (match #[trigger] row[b] {
                            Some(name) => Some(name@),
                            None => None,
                        }) == named_grid(events_of(self.events@), self@.grid)[t as int][b],
                decreases self.room_count - r,
            {
                assert(self@.grid[t as int] == self.grid@[t as int]@);
                let cell = match self.grid[t][r] {
                    Some(k) => {
                        assert(self@.grid[t as int][r as int] == Some(k));
                        Some(self.events[k].name)
                    },
                    None => None,
                };
                row.push(cell);
                r += 1;
            }
            let ghost before = g@;
            g.push(row);
            assert(name_cells(g@)[t as int] =~= named_grid(events_of(self.events@), self@.grid)[t as int]);
            assert forall|a: int| 0 <= a < t implies name_cells(g@)[a] == named_grid(
                events_of(self.events@),
                self@.grid,
            )[a] by {
                assert(g@[a] == before[a]);
                assert(name_cells(g@)[a] =~= name_cells(before)[a]);
            }
            t += 1;
        }
        assert(name_cells(g@) =~= named_grid(events_of(self.events@), self@.grid));
        g
    }
}

} // verus!
