use timetable::index::eval_constraints;
use timetable::model::{Constraint, Event, Room, ScheduleError, Time};
use timetable::schedule::{create_schedule, references_ok};

fn cell_of(grid: &Vec<Vec<Option<&str>>>, name: &str) -> Vec<(usize, usize)> {
    let mut cells = Vec::new();
    for (t, row) in grid.iter().enumerate() {
        for (r, cell) in row.iter().enumerate() {
            if *cell == Some(name) {
                cells.push((t, r));
            }
        }
    }
    cells
}

fn only_cell(grid: &Vec<Vec<Option<&str>>>, name: &str) -> (usize, usize) {
    let cells = cell_of(grid, name);
    assert_eq!(cells.len(), 1);
    cells[0]
}

#[test]
fn sequential_pair_shares_a_room_at_consecutive_times() {
    let constraints = vec![Constraint::Sequential(vec!["X", "Y"])];
    let events = eval_constraints(&constraints, &["X", "Y"]).unwrap();
    let grid = create_schedule(&events, 2, 2, 100).unwrap();
    assert_eq!(grid, vec![vec![Some("X"), None], vec![Some("Y"), None]]);
    let (tx, rx) = only_cell(&grid, "X");
    let (ty, ry) = only_cell(&grid, "Y");
    assert_eq!(rx, ry);
    assert_eq!(ty, tx + 1);
}

#[test]
fn non_concurrent_pair_takes_both_time_slots() {
    let constraints = vec![Constraint::NonConcurrent(vec!["P", "Q"])];
    let events = eval_constraints(&constraints, &["P", "Q"]).unwrap();
    let grid = create_schedule(&events, 1, 2, 100).unwrap();
    assert_eq!(grid, vec![vec![Some("P")], vec![Some("Q")]]);
}

#[test]
fn room_outside_the_grid_is_unsatisfiable() {
    let constraints = vec![Constraint::In(Room { room_num: 1 }, vec!["A"])];
    let events = eval_constraints(&constraints, &["A"]).unwrap();
    assert_eq!(create_schedule(&events, 1, 1, 50), Err(ScheduleError::Unsatisfiable));
    assert_eq!(create_schedule(&events, 1, 3, 1), Err(ScheduleError::Unsatisfiable));
}

#[test]
fn time_outside_the_grid_is_unsatisfiable() {
    let constraints = vec![Constraint::At(Time { time_slot: 2 }, vec!["A"])];
    let events = eval_constraints(&constraints, &["A"]).unwrap();
    assert_eq!(create_schedule(&events, 3, 2, 50), Err(ScheduleError::Unsatisfiable));
}

fn school_constraints() -> Vec<Constraint<'static>> {
    vec![
        Constraint::Sequential(vec!["AHL1", "AHL2"]),
        Constraint::Sequential(vec!["BHL1", "BHL2"]),
        Constraint::Sequential(vec!["CHL1", "CHL2"]),
        Constraint::NonConcurrent(vec!["AHL1", "AHL2", "AArt"]),
        Constraint::NonConcurrent(vec!["BHL1", "BHL2", "BDrama"]),
        Constraint::NonConcurrent(vec!["CHL1", "CHL2", "CDrama"]),
        Constraint::In(Room { room_num: 1 }, vec!["BDrama", "CDrama"]),
    ]
}

const SCHOOL_EVENTS: [&str; 9] =
    ["AHL1", "BHL1", "CHL1", "AHL2", "BHL2", "CHL2", "AArt", "BDrama", "CDrama"];

#[test]
fn school_week_is_scheduled() {
    let constraints = school_constraints();
    let events = eval_constraints(&constraints, &SCHOOL_EVENTS).unwrap();
    let grid = create_schedule(&events, 3, 4, 1000).unwrap();
    assert_eq!(
        grid,
        vec![
            vec![Some("AArt"), Some("BDrama"), None],
            vec![Some("AHL1"), Some("CDrama"), None],
            vec![Some("AHL2"), Some("BHL1"), Some("CHL1")],
            vec![None, Some("BHL2"), Some("CHL2")],
        ]
    );
}

#[test]
fn school_week_meets_every_constraint() {
    let constraints = school_constraints();
    let events = eval_constraints(&constraints, &SCHOOL_EVENTS).unwrap();
    let grid = create_schedule(&events, 3, 4, 1000).unwrap();
    assert_eq!(grid.len(), 4);
    for row in &grid {
        assert_eq!(row.len(), 3);
    }
    for name in SCHOOL_EVENTS {
        assert_eq!(cell_of(&grid, name).len(), 1);
    }
    let filled: usize = grid.iter().map(|row| row.iter().filter(|c| c.is_some()).count()).sum();
    assert_eq!(filled, 9);
    for constraint in &constraints {
        match constraint {
            Constraint::Sequential(names) => {
                for pair in names.windows(2) {
                    let (t0, r0) = only_cell(&grid, pair[0]);
                    let (t1, r1) = only_cell(&grid, pair[1]);
                    assert_eq!(r0, r1);
                    assert_eq!(t1, t0 + 1);
                }
            }
            Constraint::Concurrent(names) => {
                for pair in names.windows(2) {
                    assert_eq!(only_cell(&grid, pair[0]).1, only_cell(&grid, pair[1]).1);
                }
            }
            Constraint::NonConcurrent(names) => {
                for a in names {
                    for b in names {
                        if a != b {
                            assert_ne!(only_cell(&grid, a).0, only_cell(&grid, b).0);
                        }
                    }
                }
            }
            Constraint::At(time, names) => {
                for name in names {
                    assert_eq!(only_cell(&grid, name).0, time.time_slot);
                }
            }
            Constraint::In(room, names) => {
                for name in names {
                    assert_eq!(only_cell(&grid, name).1, room.room_num);
                }
            }
        }
    }
}

#[test]
fn school_week_needs_eleven_attempts() {
    let constraints = school_constraints();
    let events = eval_constraints(&constraints, &SCHOOL_EVENTS).unwrap();
    assert!(create_schedule(&events, 3, 4, 11).is_ok());
    assert_eq!(create_schedule(&events, 3, 4, 10), Err(ScheduleError::Unsatisfiable));
    assert_eq!(create_schedule(&events, 3, 4, 9), Err(ScheduleError::InfeasibleSequentialOffset));
}

#[test]
fn events_are_visited_in_name_order() {
    let events = eval_constraints(&[], &["delta", "alpha", "charlie", "bravo"]).unwrap();
    let grid = create_schedule(&events, 2, 3, 10).unwrap();
    assert_eq!(
        grid,
        vec![
            vec![Some("alpha"), Some("delta")],
            vec![None, Some("bravo")],
            vec![Some("charlie"), None],
        ]
    );
    assert_eq!(create_schedule(&events, 2, 3, 3), Err(ScheduleError::Unsatisfiable));
}

#[test]
fn unconstrained_events_fill_the_diagonal() {
    let events = eval_constraints(&[], &["a", "b", "c"]).unwrap();
    let grid = create_schedule(&events, 3, 3, 10).unwrap();
    assert_eq!(
        grid,
        vec![
            vec![Some("a"), None, None],
            vec![None, Some("b"), None],
            vec![None, None, Some("c")],
        ]
    );
}

#[test]
fn no_events_give_an_empty_grid() {
    let events: Vec<Event> = Vec::new();
    let grid = create_schedule(&events, 2, 3, 0).unwrap();
    assert_eq!(grid, vec![vec![None, None], vec![None, None], vec![None, None]]);
}

#[test]
fn no_attempts_place_nothing() {
    let events = eval_constraints(&[], &["a"]).unwrap();
    assert_eq!(create_schedule(&events, 1, 1, 0), Err(ScheduleError::Unsatisfiable));
    assert_eq!(create_schedule(&events, 1, 1, 1), Ok(vec![vec![Some("a")]]));
}

#[test]
fn grid_without_rooms_is_unsatisfiable() {
    let events = eval_constraints(&[], &["a"]).unwrap();
    assert_eq!(create_schedule(&events, 0, 4, 20), Err(ScheduleError::Unsatisfiable));
    assert_eq!(create_schedule(&events, 4, 0, 20), Err(ScheduleError::Unsatisfiable));
}

#[test]
fn more_events_than_cells_are_unsatisfiable() {
    let events = eval_constraints(&[], &["a", "b", "c"]).unwrap();
    assert_eq!(create_schedule(&events, 1, 2, 200), Err(ScheduleError::Unsatisfiable));
}

#[test]
fn unknown_name_in_an_event_list_is_reported() {
    let events = vec![
        Event { name: "a", constraints: vec![Constraint::Concurrent(vec!["a", "ghost"])] },
    ];
    assert!(!references_ok(&events));
    assert_eq!(create_schedule(&events, 2, 2, 10), Err(ScheduleError::UnknownEventReference));
    let known = vec![
        Event { name: "a", constraints: vec![Constraint::Concurrent(vec!["a", "b"])] },
        Event { name: "b", constraints: vec![Constraint::Concurrent(vec!["a", "b"])] },
    ];
    assert!(references_ok(&known));
}

#[test]
fn three_sequential_events_are_an_unsupported_combination() {
    let constraints = vec![Constraint::Sequential(vec!["a", "b", "c"])];
    let events = eval_constraints(&constraints, &["a", "b", "c"]).unwrap();
    assert_eq!(
        create_schedule(&events, 3, 3, 100),
        Err(ScheduleError::UnsupportedConstraintCombination)
    );
}

#[test]
fn concurrent_with_two_rooms_is_an_unsupported_combination() {
    let constraints = vec![
        Constraint::In(Room { room_num: 0 }, vec!["a"]),
        Constraint::In(Room { room_num: 1 }, vec!["b"]),
        Constraint::Concurrent(vec!["a", "b", "c"]),
    ];
    let events = eval_constraints(&constraints, &["a", "b", "c"]).unwrap();
    assert_eq!(
        create_schedule(&events, 2, 3, 100),
        Err(ScheduleError::UnsupportedConstraintCombination)
    );
}

#[test]
fn concurrent_events_share_the_room() {
    let constraints = vec![
        Constraint::In(Room { room_num: 1 }, vec!["a"]),
        Constraint::Concurrent(vec!["a", "b", "c"]),
    ];
    let events = eval_constraints(&constraints, &["a", "b", "c"]).unwrap();
    let grid = create_schedule(&events, 2, 3, 100).unwrap();
    assert_eq!(
        grid,
        vec![vec![None, Some("a")], vec![None, Some("b")], vec![None, Some("c")]]
    );
}

#[test]
fn fixed_time_and_room_are_kept() {
    let constraints = vec![
        Constraint::At(Time { time_slot: 2 }, vec!["a", "b"]),
        Constraint::In(Room { room_num: 1 }, vec!["a"]),
    ];
    let events = eval_constraints(&constraints, &["a", "b"]).unwrap();
    let grid = create_schedule(&events, 2, 3, 100).unwrap();
    assert_eq!(only_cell(&grid, "a"), (2, 1));
    assert_eq!(only_cell(&grid, "b"), (2, 0));
}

#[test]
fn sequential_pair_in_one_slot_runs_out_of_attempts() {
    let constraints = vec![Constraint::Sequential(vec!["X", "Y"])];
    let events = eval_constraints(&constraints, &["X", "Y"]).unwrap();
    assert_eq!(create_schedule(&events, 2, 1, 2), Err(ScheduleError::InfeasibleSequentialOffset));
    assert_eq!(create_schedule(&events, 2, 1, 3), Err(ScheduleError::Unsatisfiable));
    assert_eq!(create_schedule(&events, 2, 1, 4), Err(ScheduleError::InfeasibleSequentialOffset));
    assert_eq!(create_schedule(&events, 2, 1, 1), Err(ScheduleError::Unsatisfiable));
}

#[test]
fn second_of_a_sequential_pair_placed_first_pulls_the_first_back() {
    let constraints = vec![
        Constraint::At(Time { time_slot: 2 }, vec!["a"]),
        Constraint::Sequential(vec!["b", "a"]),
    ];
    let events = eval_constraints(&constraints, &["a", "b"]).unwrap();
    let grid = create_schedule(&events, 2, 3, 100).unwrap();
    assert_eq!(only_cell(&grid, "a"), (2, 0));
    assert_eq!(only_cell(&grid, "b"), (1, 0));
}

#[test]
fn conflicting_fixed_times_are_unsatisfiable() {
    let constraints = vec![
        Constraint::At(Time { time_slot: 0 }, vec!["a"]),
        Constraint::At(Time { time_slot: 1 }, vec!["a"]),
    ];
    let events = eval_constraints(&constraints, &["a"]).unwrap();
    assert_eq!(create_schedule(&events, 2, 2, 30), Err(ScheduleError::Unsatisfiable));
}

#[test]
fn required_time_that_is_banned_is_unsatisfiable() {
    let constraints = vec![
        Constraint::At(Time { time_slot: 0 }, vec!["a", "b"]),
        Constraint::NonConcurrent(vec!["a", "b"]),
    ];
    let events = eval_constraints(&constraints, &["a", "b"]).unwrap();
    assert_eq!(create_schedule(&events, 2, 2, 30), Err(ScheduleError::Unsatisfiable));
}
