use timetable::evaluate::{evaluate, find_event, Evaluation, Requirements};
use timetable::index::eval_constraints;
use timetable::model::{Constraint, Event, Placement, Room, ScheduleError, Time};
use timetable::scheduler::Scheduler;
use timetable::slot::find_slot;

fn at(t: usize, r: usize) -> Placement {
    Placement { room: Room { room_num: r }, time: Time { time_slot: t } }
}

fn empty_grid(slots: usize, rooms: usize) -> Vec<Vec<Option<usize>>> {
    vec![vec![None; rooms]; slots]
}

#[test]
fn free_cell_of_an_empty_grid_is_the_first() {
    let req = Requirements::new();
    assert_eq!(find_slot(&empty_grid(2, 3), &req, 2, 3), Some(at(0, 0)));
}

#[test]
fn occupied_cell_moves_both_cursors() {
    let mut grid = empty_grid(3, 3);
    grid[0][0] = Some(0);
    let req = Requirements::new();
    assert_eq!(find_slot(&grid, &req, 3, 3), Some(at(1, 1)));
    grid[1][1] = Some(1);
    assert_eq!(find_slot(&grid, &req, 3, 3), Some(at(2, 2)));
    grid[2][2] = Some(2);
    assert_eq!(find_slot(&grid, &req, 3, 3), None);
}

#[test]
fn diagonal_search_wraps_each_cursor_by_itself() {
    let mut grid = empty_grid(2, 3);
    grid[0][0] = Some(0);
    grid[1][1] = Some(1);
    let req = Requirements::new();
    assert_eq!(find_slot(&grid, &req, 2, 3), Some(at(0, 2)));
}

#[test]
fn banned_time_moves_the_time_cursor_only() {
    let mut req = Requirements::new();
    req.banned_times.push(Time { time_slot: 0 });
    assert_eq!(find_slot(&empty_grid(3, 2), &req, 3, 2), Some(at(1, 0)));
    req.banned_times.push(Time { time_slot: 1 });
    assert_eq!(find_slot(&empty_grid(3, 2), &req, 3, 2), Some(at(2, 0)));
    req.banned_times.push(Time { time_slot: 2 });
    assert_eq!(find_slot(&empty_grid(3, 2), &req, 3, 2), None);
}

#[test]
fn banned_room_moves_the_room_cursor_only() {
    let mut req = Requirements::new();
    req.banned_rooms.push(Room { room_num: 0 });
    assert_eq!(find_slot(&empty_grid(3, 2), &req, 3, 2), Some(at(0, 1)));
    req.banned_times.push(Time { time_slot: 0 });
    assert_eq!(find_slot(&empty_grid(3, 2), &req, 3, 2), Some(at(1, 1)));
}

#[test]
fn required_values_replace_the_cursors() {
    let mut grid = empty_grid(3, 3);
    grid[2][0] = Some(0);
    let mut req = Requirements::new();
    req.time = Some(Time { time_slot: 2 });
    assert_eq!(find_slot(&grid, &req, 3, 3), Some(at(2, 1)));
    req.room = Some(Room { room_num: 0 });
    assert_eq!(find_slot(&grid, &req, 3, 3), None);
    req.time = None;
    assert_eq!(find_slot(&grid, &req, 3, 3), Some(at(0, 0)));
}

#[test]
fn grid_without_cells_has_no_free_cell() {
    let req = Requirements::new();
    assert_eq!(find_slot(&empty_grid(0, 3), &req, 0, 3), None);
    assert_eq!(find_slot(&empty_grid(3, 0), &req, 3, 0), None);
}

#[test]
fn requirements_know_their_bans() {
    let mut req = Requirements::new();
    assert!(!req.clashes());
    req.banned_times.push(Time { time_slot: 4 });
    req.banned_rooms.push(Room { room_num: 2 });
    assert!(req.bans_time(Time { time_slot: 4 }));
    assert!(!req.bans_time(Time { time_slot: 2 }));
    assert!(req.bans_room(Room { room_num: 2 }));
    assert!(!req.bans_room(Room { room_num: 4 }));
    req.time = Some(Time { time_slot: 3 });
    req.room = Some(Room { room_num: 1 });
    assert!(!req.clashes());
    req.time = Some(Time { time_slot: 4 });
    assert!(req.clashes());
    req.time = None;
    req.room = Some(Room { room_num: 2 });
    assert!(req.clashes());
}

fn pair_events<'a>(constraints: &[Constraint<'a>]) -> Vec<Event<'a>> {
    eval_constraints(constraints, &["a", "b", "c"]).unwrap()
}

fn feasible(e: Evaluation) -> Requirements {
    match e {
        Evaluation::Feasible(r) => r,
        other => panic!("not feasible: {:?}", other),
    }
}

#[test]
fn evaluation_ignores_events_that_are_not_placed() {
    let events = pair_events(&[
        Constraint::Sequential(vec!["a", "b"]),
        Constraint::NonConcurrent(vec!["a", "c"]),
    ]);
    let req = feasible(evaluate(&events, &vec![None, None, None], 4, 4, 0));
    assert_eq!(req.time, None);
    assert_eq!(req.room, None);
    assert!(req.banned_times.is_empty());
    assert!(req.banned_rooms.is_empty());
}

#[test]
fn sequential_derives_time_and_room_from_the_placed_neighbour() {
    let events = pair_events(&[Constraint::Sequential(vec!["a", "b", "c"])]);
    let placed = vec![Some(at(1, 2)), None, None];
    let req = feasible(evaluate(&events, &placed, 4, 4, 1));
    assert_eq!(req.time, Some(Time { time_slot: 2 }));
    assert_eq!(req.room, Some(Room { room_num: 2 }));
    let req = feasible(evaluate(&events, &placed, 4, 4, 2));
    assert_eq!(req.time, Some(Time { time_slot: 3 }));
    let placed = vec![None, None, Some(at(2, 0))];
    let req = feasible(evaluate(&events, &placed, 4, 4, 0));
    assert_eq!(req.time, Some(Time { time_slot: 0 }));
    assert_eq!(req.room, Some(Room { room_num: 0 }));
}

#[test]
fn sequential_time_outside_the_grid_is_infeasible() {
    let events = pair_events(&[Constraint::Sequential(vec!["a", "b", "c"])]);
    let placed = vec![Some(at(3, 0)), None, None];
    assert!(matches!(evaluate(&events, &placed, 4, 4, 1), Evaluation::Infeasible { offset: true }));
    let placed = vec![None, None, Some(at(1, 0))];
    assert!(matches!(evaluate(&events, &placed, 4, 4, 0), Evaluation::Infeasible { offset: true }));
    let placed = vec![None, Some(at(0, 0)), None];
    assert!(matches!(evaluate(&events, &placed, 4, 4, 0), Evaluation::Infeasible { offset: true }));
}

#[test]
fn second_fix_by_a_sequential_is_unsupported() {
    let events = pair_events(&[Constraint::Sequential(vec!["a", "b", "c"])]);
    let placed = vec![Some(at(0, 0)), Some(at(1, 0)), None];
    assert!(matches!(evaluate(&events, &placed, 4, 4, 2), Evaluation::Unsupported));
    let events = pair_events(&[
        Constraint::At(Time { time_slot: 1 }, vec!["b"]),
        Constraint::Sequential(vec!["a", "b"]),
    ]);
    let placed = vec![Some(at(0, 0)), None, None];
    assert!(matches!(evaluate(&events, &placed, 4, 4, 1), Evaluation::Unsupported));
}

#[test]
fn fixed_time_after_a_sequential_must_agree() {
    let events = pair_events(&[
        Constraint::Sequential(vec!["a", "b"]),
        Constraint::At(Time { time_slot: 1 }, vec!["b"]),
    ]);
    let placed = vec![Some(at(0, 3)), None, None];
    let req = feasible(evaluate(&events, &placed, 4, 4, 1));
    assert_eq!(req.time, Some(Time { time_slot: 1 }));
    assert_eq!(req.room, Some(Room { room_num: 3 }));
    let placed = vec![Some(at(1, 3)), None, None];
    assert!(matches!(evaluate(&events, &placed, 4, 4, 1), Evaluation::Infeasible { offset: false }));
}

#[test]
fn non_concurrent_bans_the_times_of_placed_events() {
    let events = pair_events(&[Constraint::NonConcurrent(vec!["a", "b", "c"])]);
    let placed = vec![Some(at(1, 0)), None, Some(at(3, 2))];
    let req = feasible(evaluate(&events, &placed, 4, 4, 1));
    assert_eq!(req.banned_times, vec![Time { time_slot: 1 }, Time { time_slot: 3 }]);
    assert_eq!(req.time, None);
    assert_eq!(req.room, None);
}

#[test]
fn concurrent_adopts_the_room() {
    let events = pair_events(&[Constraint::Concurrent(vec!["a", "b", "c"])]);
    let placed = vec![Some(at(1, 2)), None, Some(at(3, 2))];
    let req = feasible(evaluate(&events, &placed, 4, 4, 1));
    assert_eq!(req.room, Some(Room { room_num: 2 }));
    assert_eq!(req.time, None);
    let placed = vec![Some(at(1, 2)), None, Some(at(3, 1))];
    assert!(matches!(evaluate(&events, &placed, 4, 4, 1), Evaluation::Unsupported));
}

#[test]
fn fixed_values_must_lie_in_the_grid_and_agree() {
    let events = pair_events(&[
        Constraint::At(Time { time_slot: 2 }, vec!["a"]),
        Constraint::In(Room { room_num: 1 }, vec!["a"]),
        Constraint::At(Time { time_slot: 2 }, vec!["a", "b"]),
    ]);
    let placed = vec![None, None, None];
    let req = feasible(evaluate(&events, &placed, 3, 2, 0));
    assert_eq!(req.time, Some(Time { time_slot: 2 }));
    assert_eq!(req.room, Some(Room { room_num: 1 }));
    assert!(matches!(evaluate(&events, &placed, 2, 2, 0), Evaluation::Infeasible { offset: false }));
    assert!(matches!(evaluate(&events, &placed, 3, 1, 0), Evaluation::Infeasible { offset: false }));
}

#[test]
fn required_time_that_is_banned_clashes() {
    let events = pair_events(&[
        Constraint::At(Time { time_slot: 1 }, vec!["b"]),
        Constraint::NonConcurrent(vec!["a", "b"]),
    ]);
    let placed = vec![Some(at(1, 0)), None, None];
    assert!(matches!(evaluate(&events, &placed, 3, 3, 1), Evaluation::Infeasible { offset: false }));
    let placed = vec![Some(at(2, 0)), None, None];
    assert!(matches!(evaluate(&events, &placed, 3, 3, 1), Evaluation::Feasible(_)));
}

#[test]
fn constraint_that_does_not_list_the_event_asks_nothing() {
    let events = vec![
        Event { name: "a", constraints: vec![Constraint::At(Time { time_slot: 9 }, vec!["b"])] },
        Event { name: "b", constraints: vec![] },
    ];
    let req = feasible(evaluate(&events, &vec![None, None], 3, 3, 0));
    assert_eq!(req.time, None);
}

#[test]
fn events_are_found_by_name() {
    let events = pair_events(&[]);
    assert_eq!(find_event(&events, "a"), Some(0));
    assert_eq!(find_event(&events, "c"), Some(2));
    assert_eq!(find_event(&events, "d"), None);
}

#[test]
fn new_search_is_empty() {
    let s = Scheduler::new(pair_events(&[]), 2, 3);
    assert_eq!(s.grid, empty_grid(3, 2));
    assert_eq!(s.placed, vec![None, None, None]);
    assert!(s.history.is_empty());
    assert_eq!(s.cursor, 0);
    assert_eq!(s.current, None);
    assert!(!s.offset_stall);
    assert!(!s.is_complete());
    assert_eq!(s.names_grid(), vec![vec![None, None], vec![None, None], vec![None, None]]);
}

#[test]
fn selection_goes_round_and_skips_placed_events() {
    let mut s = Scheduler::new(pair_events(&[]), 2, 3);
    assert_eq!(s.select(), 0);
    assert_eq!(s.current, Some(0));
    assert_eq!(s.cursor, 1);
    assert_eq!(s.select(), 0);
    assert_eq!(s.cursor, 1);
    s.place(0, at(0, 0));
    assert_eq!(s.current, None);
    s.place(1, at(1, 1));
    assert_eq!(s.select(), 2);
    assert_eq!(s.cursor, 0);
    s.current = None;
    s.cursor = 2;
    s.placed[2] = Some(at(2, 0));
    s.grid[2][0] = Some(2);
    s.history.push(at(2, 0));
    assert!(s.is_complete());
    assert_eq!(s.retract(), Some(2));
    assert_eq!(s.retract(), Some(1));
    assert_eq!(s.cursor, 2);
    assert_eq!(s.select(), 2);
    assert_eq!(s.cursor, 0);
    s.current = None;
    s.cursor = 2;
    s.place(2, at(2, 1));
    assert_eq!(s.select(), 1);
    assert_eq!(s.cursor, 2);
}

#[test]
fn placing_writes_grid_history_and_placement() {
    let mut s = Scheduler::new(pair_events(&[]), 2, 3);
    let k = s.select();
    s.place(k, at(2, 1));
    assert_eq!(s.grid[2][1], Some(0));
    assert_eq!(s.placed[0], Some(at(2, 1)));
    assert_eq!(s.history, vec![at(2, 1)]);
    assert_eq!(s.current, None);
    assert_eq!(s.names_grid()[2][1], Some("a"));
}

#[test]
fn retraction_undoes_the_most_recent_placement() {
    let mut s = Scheduler::new(pair_events(&[]), 2, 3);
    s.place(0, at(0, 0));
    s.place(2, at(1, 1));
    s.place(1, at(2, 0));
    assert_eq!(s.history.len(), 3);
    assert_eq!(s.retract(), Some(1));
    assert_eq!(s.placed[1], None);
    assert_eq!(s.grid[2][0], None);
    assert_eq!(s.history, vec![at(0, 0), at(1, 1)]);
    assert_eq!(s.placed[0], Some(at(0, 0)));
    assert_eq!(s.placed[2], Some(at(1, 1)));
    assert_eq!(s.grid[0][0], Some(0));
    assert_eq!(s.grid[1][1], Some(2));
    assert_eq!(s.retract(), Some(2));
    assert_eq!(s.placed[2], None);
    assert_eq!(s.grid[1][1], None);
    assert_eq!(s.history.len(), 1);
    assert_eq!(s.retract(), Some(0));
    assert_eq!(s.grid, empty_grid(3, 2));
    assert_eq!(s.placed, vec![None, None, None]);
    assert_eq!(s.history.len(), 0);
}

#[test]
fn retraction_of_nothing_changes_nothing() {
    let mut s = Scheduler::new(pair_events(&[]), 2, 3);
    s.select();
    assert_eq!(s.retract(), None);
    assert_eq!(s.grid, empty_grid(3, 2));
    assert_eq!(s.placed, vec![None, None, None]);
    assert!(s.history.is_empty());
    assert_eq!(s.current, Some(0));
}

#[test]
fn failed_attempt_retracts_and_keeps_the_event_selected() {
    let events = eval_constraints(&[Constraint::Sequential(vec!["a", "b"])], &["a", "b"]).unwrap();
    let mut s = Scheduler::new(events, 2, 1);
    assert_eq!(s.step(), Ok(()));
    assert_eq!(s.placed, vec![Some(at(0, 0)), None]);
    assert_eq!(s.current, None);
    assert_eq!(s.step(), Ok(()));
    assert_eq!(s.placed, vec![None, None]);
    assert_eq!(s.current, Some(1));
    assert!(s.offset_stall);
    assert!(s.history.is_empty());
    assert_eq!(s.step(), Ok(()));
    assert_eq!(s.placed, vec![None, Some(at(0, 0))]);
    assert_eq!(s.grid, vec![vec![Some(1), None]]);
    assert!(!s.offset_stall);
    assert_eq!(s.cursor, 0);
}

#[test]
fn attempt_without_a_free_cell_retracts() {
    let events = eval_constraints(&[], &["a", "b"]).unwrap();
    let mut s = Scheduler::new(events, 1, 1);
    assert_eq!(s.step(), Ok(()));
    assert_eq!(s.history, vec![at(0, 0)]);
    assert_eq!(s.step(), Ok(()));
    assert!(s.history.is_empty());
    assert_eq!(s.current, Some(1));
    assert!(!s.offset_stall);
}

#[test]
fn unsupported_attempt_ends_the_run() {
    let events =
        eval_constraints(&[Constraint::Sequential(vec!["a", "b", "c"])], &["a", "b", "c"]).unwrap();
    let mut s = Scheduler::new(events, 3, 3);
    assert_eq!(s.run(2), Err(ScheduleError::Unsatisfiable));
    assert_eq!(s.history.len(), 2);
    assert_eq!(s.step(), Err(ScheduleError::UnsupportedConstraintCombination));
    assert_eq!(s.history.len(), 2);
    assert_eq!(s.current, Some(2));
}

#[test]
fn run_stops_when_every_event_is_placed() {
    let events = eval_constraints(&[], &["a", "b"]).unwrap();
    let mut s = Scheduler::new(events, 2, 2);
    assert_eq!(s.run(1), Err(ScheduleError::Unsatisfiable));
    assert_eq!(s.history.len(), 1);
    assert_eq!(s.run(5), Ok(()));
    assert!(s.is_complete());
    assert_eq!(s.names_grid(), vec![vec![Some("a"), None], vec![None, Some("b")]]);
    assert_eq!(s.run(0), Ok(()));
}
