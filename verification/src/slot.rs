//! The search for a free cell: two cursors, one over time slots and one over rooms, walk the
//! grid until they meet a cell that the demand allows and that no event occupies.

use vstd::prelude::*;
use crate::evaluate::{demand_in_grid, Demand, Requirements};
use crate::model::{Placement, Room, Time};

verus! {

/// The cells of a grid, row by row: `grid_of(rows)[t][r]` is the event in room `r` at
/// time `t`, if there is one.
pub open spec fn grid_of(rows: Seq<Vec<Option<usize>>>) -> Seq<Seq<Option<usize>>> {
    Seq::new(rows.len(), |t: int| rows[t]@)
}

/// Whether the grid has `slots` rows of `rooms` cells each.
pub open spec fn grid_shape(grid: Seq<Seq<Option<usize>>>, slots: int, rooms: int) -> bool {
    &&& grid.len() == slots
    &&& forall|t: int| 0 <= t < slots ==> (#[trigger] grid[t]).len() == rooms
}

/// Whether the cell lies inside a grid of `slots` time slots and `rooms` rooms.
pub open spec fn in_grid(c: Placement, slots: int, rooms: int) -> bool {
    c.time.time_slot < slots && c.room.room_num < rooms
}

/// Whether the cell meets the demand: it has the required time and room, where one is
/// required, and neither its time nor its room is ruled out.
pub open spec fn fits(d: Demand, c: Placement) -> bool {
    &&& d.time matches Some(t) ==> c.time == t
    &&& d.room matches Some(r) ==> c.room == r
    &&& !d.banned_times.contains(c.time)
    &&& !d.banned_rooms.contains(c.room)
}

/// The cell that the cursors point at: a required time or room takes the place of its
/// cursor.
pub open spec fn candidate(d: Demand, ti: int, ri: int) -> Placement {
    Placement {
        room: match d.room {
            Some(r) => r,
            None => Room { room_num: ri as usize },
        },
        time: match d.time {
            Some(t) => t,
            None => Time { time_slot: ti as usize },
        },
    }
}

/// The cursor after one step forward over `n` positions, back at 0 after the last.
pub open spec fn advance(i: int, n: int) -> int {
    if i + 1 >= n {
        0
    } else {
        i + 1
    }
}

/// The cell that the search accepts when it starts with the cursors at `ti` and `ri` and may
/// look at `fuel` candidates. A candidate whose time is ruled out moves the time cursor; one
/// whose room is ruled out moves the room cursor; one that is occupied moves both; any
/// other is accepted.
pub open spec fn probe(
    grid: Seq<Seq<Option<usize>>>,
    d: Demand,
    slots: int,
    rooms: int,
    ti: int,
    ri: int,
    fuel: nat,
) -> Option<Placement>
    decreases fuel,
{
    if fuel == 0 {
        None
    } else {
        let c = candidate(d, ti, ri);
        if d.banned_times.contains(c.time) {
            probe(grid, d, slots, rooms, advance(ti, slots), ri, (fuel - 1) as nat)
        } else if d.banned_rooms.contains(c.room) {
            probe(grid, d, slots, rooms, ti, advance(ri, rooms), (fuel - 1) as nat)
        } else if grid[c.time.time_slot as int][c.room.room_num as int] is Some {
            probe(grid, d, slots, rooms, advance(ti, slots), advance(ri, rooms), (fuel - 1) as nat)
        } else {
            Some(c)
        }
    }
}

/// The cell that the search accepts: it starts with both cursors at 0 and looks at no more
/// candidates than the grid has cells.
pub open spec fn free_cell(grid: Seq<Seq<Option<usize>>>, d: Demand, slots: int, rooms: int)
    -> Option<Placement> {
    probe(grid, d, slots, rooms, 0, 0, (slots * rooms) as nat)
}

proof fn lemma_probe(
    grid: Seq<Seq<Option<usize>>>,
    d: Demand,
    slots: int,
    rooms: int,
    ti: int,
    ri: int,
    fuel: nat,
)
    requires
        demand_in_grid(d, slots, rooms),
        0 <= ti < slots <= usize::MAX,
        0 <= ri < rooms <= usize::MAX,
    ensures
        probe(grid, d, slots, rooms, ti, ri, fuel) matches Some(c) ==> {
            &&& in_grid(c, slots, rooms)
            &&& fits(d, c)
            &&& grid[c.time.time_slot as int][c.room.room_num as int] is None
        },
    decreases fuel,
{
    if fuel > 0 {
        let left = (fuel - 1) as nat;
        lemma_probe(grid, d, slots, rooms, advance(ti, slots), ri, left);
        lemma_probe(grid, d, slots, rooms, ti, advance(ri, rooms), left);
        lemma_probe(grid, d, slots, rooms, advance(ti, slots), advance(ri, rooms), left);
    }
}

/// The cell that the search accepts lies inside the grid, meets the demand and is free.
pub proof fn lemma_free_cell(grid: Seq<Seq<Option<usize>>>, d: Demand, slots: int, rooms: int)
    requires
        demand_in_grid(d, slots, rooms),
        0 <= slots <= usize::MAX,
        0 <= rooms <= usize::MAX,
    ensures
        free_cell(grid, d, slots, rooms) matches Some(c) ==> {
            &&& in_grid(c, slots, rooms)
            &&& fits(d, c)
            &&& grid[c.time.time_slot as int][c.room.room_num as int] is None
        },
{
    if slots == 0 || rooms == 0 {
        assert(slots * rooms == 0) by (nonlinear_arith)
            requires
                slots == 0 || rooms == 0,
        ;
    } else {
        lemma_probe(grid, d, slots, rooms, 0, 0, (slots * rooms) as nat);
    }
}

/// Searches the grid for a free cell that meets the requirements.
///
/// Returns `None` when as many candidates as the grid has cells were looked at and none was
/// accepted.
pub fn find_slot(
    grid: &Vec<Vec<Option<usize>>>,
    req: &Requirements,
    time_slots: usize,
    room_count: usize,
) -> (found: Option<Placement>)
    requires
        grid_shape(grid_of(grid@), time_slots as int, room_count as int),
        demand_in_grid(req@, time_slots as int, room_count as int),
        time_slots * room_count <= usize::MAX,
    ensures
        found == free_cell(grid_of(grid@), req@, time_slots as int, room_count as int),
        found matches Some(c) ==> {
            &&& in_grid(c, time_slots as int, room_count as int)
            &&& fits(req@, c)
            &&& grid_of(grid@)[c.time.time_slot as int][c.room.room_num as int] is None
        },
{
    if time_slots == 0 || room_count == 0 {
        assert(time_slots * room_count == 0) by (nonlinear_arith)
            requires
                time_slots == 0 || room_count == 0,
        ;
        return None;
    }
    let ghost cells = grid_of(grid@);
    let ghost slots = time_slots as int;
    let ghost rooms = room_count as int;
    let mut left: usize = time_slots * room_count;
    let mut time_index: usize = 0;
    let mut room_index: usize = 0;
    while left > 0
        invariant
            cells == grid_of(grid@),
            slots == time_slots as int,
            rooms == room_count as int,
            grid_shape(cells, slots, rooms),
            demand_in_grid(req@, slots, rooms),
            time_index < time_slots,
            room_index < room_count,
            free_cell(cells, req@, slots, rooms) == probe(
                cells,
                req@,
                slots,
                rooms,
                time_index as int,
                room_index as int,
                left as nat,
            ),
        decreases left,
    {
        let try_time = match req.time {
            Some(t) => t,
            None => Time { time_slot: time_index },
        };
        let try_room = match req.room {
            Some(r) => r,
            None => Room { room_num: room_index },
        };
        assert(Placement { room: try_room, time: try_time } == candidate(
            req@,
            time_index as int,
            room_index as int,
        ));
        left -= 1;
        if req.bans_time(try_time) {
            time_index = if time_index + 1 >= time_slots { 0 } else { time_index + 1 };
        } else if req.bans_room(try_room) {
            room_index = if room_index + 1 >= room_count { 0 } else { room_index + 1 };
        } else {
            assert(cells[try_time.time_slot as int] == grid@[try_time.time_slot as int]@);
            if grid[try_time.time_slot][try_room.room_num].is_some() {
                time_index = if time_index + 1 >= time_slots { 0 } else { time_index + 1 };
                room_index = if room_index + 1 >= room_count { 0 } else { room_index + 1 };
            } else {
                return Some(Placement { room: try_room, time: try_time });
            }
        }
    }
    None
}

} // verus!
