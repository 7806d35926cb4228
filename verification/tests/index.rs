use timetable::index::{eval_constraints, find_name};
use timetable::model::{Constraint, Event, Room, ScheduleError, Time};
use timetable::names::{name_eq, name_less};
use timetable::order::{sort_by_name, sorted_events};

fn kinds(event: &Event) -> Vec<String> {
    event
        .constraints
        .iter()
        .map(|c| match c {
            Constraint::Sequential(n) => format!("seq{:?}", n),
            Constraint::Concurrent(n) => format!("con{:?}", n),
            Constraint::NonConcurrent(n) => format!("non{:?}", n),
            Constraint::At(t, n) => format!("at{}{:?}", t.time_slot, n),
            Constraint::In(r, n) => format!("in{}{:?}", r.room_num, n),
        })
        .collect()
}

#[test]
fn index_keeps_the_order_of_names_and_constraints() {
    let constraints = vec![
        Constraint::Sequential(vec!["a", "b"]),
        Constraint::NonConcurrent(vec!["b", "c"]),
        Constraint::At(Time { time_slot: 3 }, vec!["c", "a"]),
        Constraint::In(Room { room_num: 2 }, vec!["b"]),
        Constraint::Concurrent(vec!["a", "c"]),
    ];
    let events = eval_constraints(&constraints, &["c", "a", "b", "d"]).unwrap();
    assert_eq!(events.len(), 4);
    assert_eq!(events[0].name, "c");
    assert_eq!(events[1].name, "a");
    assert_eq!(events[2].name, "b");
    assert_eq!(events[3].name, "d");
    assert_eq!(
        kinds(&events[0]),
        vec!["non[\"b\", \"c\"]", "at3[\"c\", \"a\"]", "con[\"a\", \"c\"]"]
    );
    assert_eq!(
        kinds(&events[1]),
        vec!["seq[\"a\", \"b\"]", "at3[\"c\", \"a\"]", "con[\"a\", \"c\"]"]
    );
    assert_eq!(
        kinds(&events[2]),
        vec!["seq[\"a\", \"b\"]", "non[\"b\", \"c\"]", "in2[\"b\"]"]
    );
    assert!(kinds(&events[3]).is_empty());
}

#[test]
fn index_twice_gives_the_same_lists() {
    let constraints = vec![
        Constraint::Sequential(vec!["a", "b"]),
        Constraint::NonConcurrent(vec!["b", "c", "a"]),
        Constraint::In(Room { room_num: 0 }, vec!["c"]),
    ];
    let names = ["a", "b", "c"];
    let first = eval_constraints(&constraints, &names).unwrap();
    let second = eval_constraints(&constraints, &names).unwrap();
    assert_eq!(first.len(), second.len());
    for (x, y) in first.iter().zip(second.iter()) {
        assert_eq!(x.name, y.name);
        assert_eq!(kinds(x), kinds(y));
    }
}

#[test]
fn index_of_an_event_list_by_its_name_is_the_list() {
    let constraints = vec![
        Constraint::Sequential(vec!["a", "b"]),
        Constraint::NonConcurrent(vec!["b", "c"]),
        Constraint::Concurrent(vec!["a", "c"]),
    ];
    let events = eval_constraints(&constraints, &["a", "b", "c"]).unwrap();
    let again = eval_constraints(&events[0].constraints, &["a", "b", "c"]).unwrap();
    assert_eq!(kinds(&again[0]), kinds(&events[0]));
}

#[test]
fn index_rejects_an_unknown_name() {
    let constraints = vec![
        Constraint::Sequential(vec!["a", "b"]),
        Constraint::Concurrent(vec!["a", "z"]),
    ];
    let res = eval_constraints(&constraints, &["a", "b"]);
    assert!(matches!(res, Err(ScheduleError::UnknownEventReference)));
    let res = eval_constraints(&constraints, &[]);
    assert!(matches!(res, Err(ScheduleError::UnknownEventReference)));
}

#[test]
fn index_of_nothing_is_empty() {
    let events = eval_constraints(&[], &[]).unwrap();
    assert!(events.is_empty());
    let constraints = vec![Constraint::Concurrent(vec![])];
    let events = eval_constraints(&constraints, &["a"]).unwrap();
    assert_eq!(events.len(), 1);
    assert!(events[0].constraints.is_empty());
}

#[test]
fn copies_hold_the_same_names() {
    let c = Constraint::At(Time { time_slot: 7 }, vec!["x", "y"]);
    let d = c.duplicate();
    assert!(matches!(&d, Constraint::At(Time { time_slot: 7 }, n) if *n == vec!["x", "y"]));
    assert_eq!(*c.names(), vec!["x", "y"]);
    let e = Event { name: "x", constraints: vec![c, Constraint::Concurrent(vec!["x"])] };
    let f = e.duplicate();
    assert_eq!(f.name, "x");
    assert_eq!(kinds(&f), kinds(&e));
    assert_eq!(f.constraints.len(), 2);
}

#[test]
fn names_compare_by_characters() {
    assert!(name_eq("abc", "abc"));
    assert!(!name_eq("abc", "abd"));
    assert!(!name_eq("abc", "ab"));
    assert!(name_eq("", ""));
    assert!(name_eq("zoë", "zoë"));
    assert!(!name_eq("zoe", "zoë"));
}

#[test]
fn names_order_lexicographically() {
    assert!(name_less("a", "b"));
    assert!(!name_less("b", "a"));
    assert!(!name_less("a", "a"));
    assert!(name_less("", "a"));
    assert!(!name_less("a", ""));
    assert!(!name_less("", ""));
    assert!(name_less("ab", "abc"));
    assert!(!name_less("abc", "ab"));
    assert!(name_less("AHL2", "BDrama"));
    assert!(name_less("AArt", "AHL1"));
    assert!(name_less("Z", "a"));
    assert!(name_less("z", "é"));
    assert!(name_less("é", "日"));
    assert_eq!(name_less("abd", "abce"), "abd" < "abce");
}

#[test]
fn name_order_agrees_with_the_order_of_strings() {
    let words = ["", "a", "A", "ab", "aB", "b", "é", "zz", "日本", "10", "9"];
    for x in words {
        for y in words {
            assert_eq!(name_less(x, y), x < y);
            assert_eq!(name_eq(x, y), x == y);
        }
    }
}

#[test]
fn first_position_of_a_name() {
    assert_eq!(find_name(&["a", "b", "a"], "a"), Some(0));
    assert_eq!(find_name(&["a", "b", "b"], "b"), Some(1));
    assert_eq!(find_name(&["a", "b"], "c"), None);
    assert_eq!(find_name(&[], "c"), None);
}

fn bare(name: &str) -> Event<'_> {
    Event { name, constraints: Vec::new() }
}

#[test]
fn sorting_gives_positions_in_name_order() {
    let events = vec![bare("delta"), bare("alpha"), bare("charlie"), bare("bravo")];
    assert_eq!(sort_by_name(&events), vec![1, 3, 2, 0]);
    let sorted = sorted_events(&events);
    let names: Vec<&str> = sorted.iter().map(|e| e.name).collect();
    assert_eq!(names, vec!["alpha", "bravo", "charlie", "delta"]);
}

#[test]
fn sorting_keeps_equal_names_in_their_order() {
    let events = vec![bare("b"), bare("a"), bare("b"), bare("a")];
    assert_eq!(sort_by_name(&events), vec![1, 3, 0, 2]);
    assert_eq!(sort_by_name(&[]), Vec::<usize>::new());
}

#[test]
fn sorting_the_school_week() {
    let events: Vec<Event> = ["AHL1", "BHL1", "CHL1", "AHL2", "BHL2", "CHL2", "AArt", "BDrama", "CDrama"]
        .iter()
        .map(|n| bare(n))
        .collect();
    let sorted = sorted_events(&events);
    let names: Vec<&str> = sorted.iter().map(|e| e.name).collect();
    assert_eq!(
        names,
        vec!["AArt", "AHL1", "AHL2", "BDrama", "BHL1", "BHL2", "CDrama", "CHL1", "CHL2"]
    );
}
