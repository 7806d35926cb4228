//! What a finished timetable guarantees: every event has one cell of its own, and the cells
//! stand to each other as the constraints ask.

use vstd::prelude::*;
use crate::index::{all_known, constraint_index, rules_listing};
use crate::evaluate::Problem;
use crate::machine::{
    complete, initial, lemma_initial_well_formed, lemma_placed_count_full, lemma_run_ends,
    named_grid, references_known, run, schedule_outcome, well_formed, SearchState,
};
use crate::model::{event_names, EventSpec, Placement, Rule, RuleKind};
use crate::names::lemma_name_lt_irreflexive;
use crate::order::{in_name_order, lemma_name_order_exists, name_order, visits_before};
use crate::sound::{
    alone_ok, consistent, distinct_names, lemma_lookup_own, lemma_run_keeps, pair_ok, settled,
};

verus! {

/// Whether the cell `c` of the grid holds `name`.
pub open spec fn sits(grid: Seq<Seq<Option<Seq<char>>>>, name: Seq<char>, c: Placement) -> bool {
    &&& c.time.time_slot < grid.len()
    &&& c.room.room_num < grid[c.time.time_slot as int].len()
    &&& grid[c.time.time_slot as int][c.room.room_num as int] == Some(name)
}

/// Whether exactly one cell of the grid holds `name`.
pub open spec fn placed_once(grid: Seq<Seq<Option<Seq<char>>>>, name: Seq<char>) -> bool {
    exists|c: Placement| #[trigger]
        sits(grid, name, c) && forall|q: Placement| #[trigger] sits(grid, name, q) ==> q == c
}

/// Whether the name of every event is in exactly one cell of the grid, and every cell that
/// is not empty holds the name of an event.
pub open spec fn every_event_once(grid: Seq<Seq<Option<Seq<char>>>>, events: Seq<EventSpec>)
    -> bool {
    &&& forall|k: int| 0 <= k < events.len() ==> placed_once(grid, (#[trigger] events[k]).name)
    &&& forall|t: int, r: int|
        0 <= t < grid.len() && 0 <= r < grid[t].len() ==> (#[trigger] grid[t][r] matches Some(x)
            ==> event_names(events).contains(x))
}

/// Whether the grid meets the rule. Every cell that holds a listed name has the time of an
/// `At` rule and the room of an `In` rule. Any two cells `c` and `q` that hold different
/// listed names are in the same room if the rule is `Sequential` or `Concurrent`, at
/// different times if it is `NonConcurrent`, and, if it is `Sequential`, as many time slots
/// apart as the names are apart in the list, where a name counts at its first position.
pub open spec fn rule_holds(rule: Rule, grid: Seq<Seq<Option<Seq<char>>>>) -> bool {
    forall|a: int, b: int, c: Placement, q: Placement|
        0 <= a < rule.names.len() && 0 <= b < rule.names.len() && #[trigger] sits(
            grid,
            rule.names[a],
            c,
        ) && #[trigger] sits(grid, rule.names[b], q) ==> alone_ok(rule.kind, c) && (rule.names[a]
            != rule.names[b] ==> pair_ok(
            rule.kind,
            rule.names.index_of_first(rule.names[a]).unwrap(),
            rule.names.index_of_first(rule.names[b]).unwrap(),
            c,
            q,
        ))
}

/// Whether the grid meets every rule of every event.
pub open spec fn all_rules_hold(events: Seq<EventSpec>, grid: Seq<Seq<Option<Seq<char>>>>)
    -> bool {
    forall|k: int, i: int|
        0 <= k < events.len() && 0 <= i < events[k].rules.len() ==> rule_holds(
            #[trigger] events[k].rules[i],
            grid,
        )
}

/// Whether rule `i` of event `k`, if it lists event `m`, is a rule of event `m` too.
pub open spec fn shared(events: Seq<EventSpec>, k: int, i: int, m: int) -> bool {
    0 <= k < events.len() && 0 <= i < events[k].rules.len() && 0 <= m < events.len()
        && events[k].rules[i].names.contains(events[m].name) ==> events[m].rules.contains(
        events[k].rules[i],
    )
}

/// Whether every rule is in the list of every event that it lists, as it is in a
/// constraint index.
pub open spec fn lists_complete(events: Seq<EventSpec>) -> bool {
    forall|k: int, i: int, m: int| #[trigger] shared(events, k, i, m)
}

/// The event whose name is in a cell of the grid of a well-formed state is placed in that
/// cell.
proof fn lemma_named_cell(
    events: Seq<EventSpec>,
    s: SearchState,
    slots: int,
    rooms: int,
    name: Seq<char>,
    c: Placement,
) -> (m: int)
    requires
        well_formed(s, events.len() as int, slots, rooms),
        sits(named_grid(events, s.grid), name, c),
    ensures
        0 <= m < events.len(),
        events[m].name == name,
        s.placed[m] == Some(c),
{
    let t = c.time.time_slot as int;
    let r = c.room.room_num as int;
    assert(s.grid[t][r] is Some);
    s.grid[t][r]->Some_0 as int
}

/// In a well-formed state in which every event is placed, and where no two events have the
/// same name, the grid holds every event's name in exactly one cell.
pub proof fn lemma_complete_once(events: Seq<EventSpec>, s: SearchState, slots: int, rooms: int)
    requires
        events.len() <= usize::MAX,
        well_formed(s, events.len() as int, slots, rooms),
        complete(s),
        distinct_names(events),
    ensures
        every_event_once(named_grid(events, s.grid), events),
{
    let grid = named_grid(events, s.grid);
    lemma_placed_count_full(s.placed);
    assert forall|k: int| 0 <= k < events.len() implies placed_once(
        grid,
        (#[trigger] events[k]).name,
    ) by {
        let c = s.placed[k]->Some_0;
        assert(s.placed[k] is Some);
        assert(sits(grid, events[k].name, c));
        assert forall|q: Placement| #[trigger] sits(grid, events[k].name, q) implies q == c by {
            let m = lemma_named_cell(events, s, slots, rooms, events[k].name, q);
            if m < k {
                assert(events[m].name != events[k].name);
            } else if k < m {
                assert(events[k].name != events[m].name);
            }
        }
    }
    assert forall|t: int, r: int| 0 <= t < grid.len() && 0 <= r < grid[t].len() implies (
    #[trigger] grid[t][r] matches Some(x) ==> event_names(events).contains(x)) by {
        if grid[t][r] is Some {
            let m = s.grid[t][r]->Some_0 as int;
            assert(event_names(events)[m] == events[m].name);
        }
    }
}

/// In a well-formed state whose placed events agree with their rules, where no two events
/// have the same name and every rule is in the list of every event it lists, the grid meets
/// every rule of every event.
pub proof fn lemma_consistent_holds(events: Seq<EventSpec>, s: SearchState, slots: int, rooms: int)
    requires
        well_formed(s, events.len() as int, slots, rooms),
        consistent(events, s.placed),
        distinct_names(events),
        lists_complete(events),
    ensures
        all_rules_hold(events, named_grid(events, s.grid)),
{
    let grid = named_grid(events, s.grid);
    assert forall|k: int, i: int|
        0 <= k < events.len() && 0 <= i < events[k].rules.len() implies rule_holds(
        #[trigger] events[k].rules[i],
        grid,
    ) by {
        let rule = events[k].rules[i];
        assert forall|a: int, b: int, c: Placement, q: Placement|
            0 <= a < rule.names.len() && 0 <= b < rule.names.len() && #[trigger] sits(
                grid,
                rule.names[a],
                c,
            ) && #[trigger] sits(grid, rule.names[b], q) implies alone_ok(rule.kind, c) && (
        rule.names[a] != rule.names[b] ==> pair_ok(
            rule.kind,
            rule.names.index_of_first(rule.names[a]).unwrap(),
            rule.names.index_of_first(rule.names[b]).unwrap(),
            c,
            q,
        )) by {
            let ka = lemma_named_cell(events, s, slots, rooms, rule.names[a], c);
            let kb = lemma_named_cell(events, s, slots, rooms, rule.names[b], q);
            assert(shared(events, k, i, ka));
            assert(shared(events, k, i, kb));
            let ia = choose|ia: int| 0 <= ia < events[ka].rules.len() && events[ka].rules[ia] == rule;
            assert(settled(events, s.placed, ka, ia, b));
            rule.names.index_of_first_ensures(rule.names[a]);
            lemma_lookup_own(events, kb);
        }
    }
}

/// The events in the order of visiting are the same events: each position of the one list
/// holds the event of one position of the other.
pub proof fn lemma_name_order_permutes(events: Seq<EventSpec>)
    requires
        events.len() <= usize::MAX,
    ensures
        in_name_order(events).len() == events.len(),
        forall|k: int|
            0 <= k < events.len() ==> events.contains(#[trigger] in_name_order(events)[k]),
        forall|m: int| 0 <= m < events.len() ==> in_name_order(events).contains(#[trigger] events[m]),
        distinct_names(events) ==> distinct_names(in_name_order(events)),
{
    let names = event_names(events);
    let order = name_order(names);
    let sorted = in_name_order(events);
    lemma_name_order_exists(names);
    assert forall|k: int| 0 <= k < events.len() implies events.contains(#[trigger] sorted[k]) by {
        assert(order[k] < names.len());
        assert(events[order[k] as int] == sorted[k]);
    }
    assert forall|m: int| 0 <= m < events.len() implies sorted.contains(#[trigger] events[m]) by {
        assert(order.contains(m as usize));
        let k = choose|k: int| 0 <= k < order.len() && order[k] == m as usize;
        assert(sorted[k] == events[m]);
    }
    if distinct_names(events) {
        assert forall|a: int, b: int| 0 <= a < b < sorted.len() implies (#[trigger] sorted[a]).name
            != (#[trigger] sorted[b]).name by {
            let x = order[a] as int;
            let y = order[b] as int;
            assert(order[a] < names.len() && order[b] < names.len());
            assert(visits_before(names, x, y));
            lemma_name_lt_irreflexive(names[x]);
            if x < y {
                assert(events[x].name != events[y].name);
            } else if y < x {
                assert(events[y].name != events[x].name);
            }
        }
    }
}

/// Two lists that hold the same events are alike in what a grid has to hold for them and
/// in whether their rule lists are complete.
pub proof fn lemma_same_events(
    a: Seq<EventSpec>,
    b: Seq<EventSpec>,
    grid: Seq<Seq<Option<Seq<char>>>>,
)
    requires
        forall|k: int| 0 <= k < a.len() ==> b.contains(#[trigger] a[k]),
        forall|m: int| 0 <= m < b.len() ==> a.contains(#[trigger] b[m]),
    ensures
        lists_complete(a) ==> lists_complete(b),
        every_event_once(grid, a) ==> every_event_once(grid, b),
        all_rules_hold(a, grid) ==> all_rules_hold(b, grid),
{
    if lists_complete(a) {
        assert forall|k: int, i: int, m: int| #[trigger] shared(b, k, i, m) by {
            if 0 <= k < b.len() && 0 <= i < b[k].rules.len() && 0 <= m < b.len() {
                assert(a.contains(b[k]));
                assert(a.contains(b[m]));
                let ka = choose|ka: int| 0 <= ka < a.len() && a[ka] == b[k];
                let ma = choose|ma: int| 0 <= ma < a.len() && a[ma] == b[m];
                assert(shared(a, ka, i, ma));
            }
        }
    }
    if every_event_once(grid, a) {
        assert forall|m: int| 0 <= m < b.len() implies placed_once(grid, (#[trigger] b[m]).name) by {
            assert(a.contains(b[m]));
            let ma = choose|ma: int| 0 <= ma < a.len() && a[ma] == b[m];
            assert(placed_once(grid, a[ma].name));
        }
        assert forall|t: int, r: int| 0 <= t < grid.len() && 0 <= r < grid[t].len() implies (
        #[trigger] grid[t][r] matches Some(x) ==> event_names(b).contains(x)) by {
            if grid[t][r] is Some {
                let x = grid[t][r]->Some_0;
                assert(event_names(a).contains(x));
                let ka = choose|ka: int| 0 <= ka < a.len() && event_names(a)[ka] == x;
                assert(b.contains(a[ka]));
                let kb = choose|kb: int| 0 <= kb < b.len() && b[kb] == a[ka];
                assert(event_names(b)[kb] == x);
            }
        }
    }
    if all_rules_hold(a, grid) {
        assert forall|k: int, i: int| 0 <= k < b.len() && 0 <= i < b[k].rules.len() implies rule_holds(
            #[trigger] b[k].rules[i],
            grid,
        ) by {
            assert(a.contains(b[k]));
            let ka = choose|ka: int| 0 <= ka < a.len() && a[ka] == b[k];
            assert(rule_holds(a[ka].rules[i], grid));
        }
    }
}

/// A timetable has one row for each time slot and one cell in it for each room. Where no
/// two events have the same name, it holds every event's name in exactly one cell; where
/// moreover every rule is in the list of every event that it lists, it meets every rule of
/// every event.
pub proof fn lemma_outcome_valid(events: Seq<EventSpec>, rooms: int, slots: int, attempts: nat)
    requires
        events.len() <= usize::MAX,
        0 <= rooms <= usize::MAX,
        0 <= slots <= usize::MAX,
    ensures
        schedule_outcome(events, rooms, slots, attempts) matches Ok(grid) ==> {
            &&& grid.len() == slots
            &&& forall|t: int| 0 <= t < slots ==> (#[trigger] grid[t]).len() == rooms
            &&& distinct_names(events) ==> every_event_once(grid, events)
            &&& distinct_names(events) && lists_complete(events) ==> all_rules_hold(events, grid)
        },
{
    if schedule_outcome(events, rooms, slots, attempts) is Ok {
        let n = events.len() as int;
        let sorted = in_name_order(events);
        let p = Problem { events: sorted, rooms, slots };
        let start = initial(n, slots, rooms);
        let last = run(p, start, attempts).0;
        let grid = named_grid(sorted, last.grid);
        lemma_name_order_permutes(events);
        lemma_initial_well_formed(n, slots, rooms);
        assert forall|k: int, i: int, j: int| #[trigger] settled(sorted, start.placed, k, i, j) by {}
        lemma_run_keeps(p, start, attempts);
        lemma_run_ends(p, start, attempts);
        lemma_same_events(events, sorted, grid);
        lemma_same_events(sorted, events, grid);
        if distinct_names(events) {
            lemma_complete_once(sorted, last, slots, rooms);
            if lists_complete(events) {
                lemma_consistent_holds(sorted, last, slots, rooms);
            }
        }
        assert forall|t: int| 0 <= t < slots implies (#[trigger] grid[t]).len() == rooms by {
            assert(last.grid[t].len() == rooms);
        }
    }
}

/// In a constraint index every rule is in the list of every event that it lists.
pub proof fn lemma_index_lists_complete(rules: Seq<Rule>, names: Seq<Seq<char>>)
    ensures
        lists_complete(constraint_index(rules, names)),
{
    let events = constraint_index(rules, names);
    assert forall|k: int, i: int, m: int| #[trigger] shared(events, k, i, m) by {
        if 0 <= k < events.len() && 0 <= i < events[k].rules.len() && 0 <= m < events.len()
            && events[k].rules[i].names.contains(events[m].name) {
            let rule = events[k].rules[i];
            assert(rules_listing(rules, names[k]).contains(rule));
            rules.lemma_filter_contains_rev(|r: Rule| r.names.contains(names[k]), rule);
            let at = choose|at: int| 0 <= at < rules.len() && rules[at] == rule;
            rules.lemma_filter_contains(|r: Rule| r.names.contains(names[m]), at);
        }
    }
}

/// Where every name that the rules list is known, every name that a rule of the constraint
/// index lists is the name of one of its events: scheduling the index never fails with
/// `UnknownEventReference`.
pub proof fn lemma_index_references_known(rules: Seq<Rule>, names: Seq<Seq<char>>)
    requires
        all_known(rules, names),
    ensures
        references_known(constraint_index(rules, names)),
{
    let events = constraint_index(rules, names);
    assert(event_names(events) =~= names);
    assert forall|k: int, i: int, j: int|
        0 <= k < events.len() && 0 <= i < events[k].rules.len() && 0 <= j
            < events[k].rules[i].names.len() implies event_names(events).contains(
        #[trigger] events[k].rules[i].names[j],
    ) by {
        let rule = events[k].rules[i];
        assert(rules_listing(rules, names[k]).contains(rule));
        rules.lemma_filter_contains_rev(|r: Rule| r.names.contains(names[k]), rule);
        let at = choose|at: int| 0 <= at < rules.len() && rules[at] == rule;
        assert(names.contains(rules[at].names[j]));
    }
}

/// A grid that meets every rule of every event of a constraint index meets every rule that
/// the index was built from.
pub proof fn lemma_index_rules_hold(
    rules: Seq<Rule>,
    names: Seq<Seq<char>>,
    grid: Seq<Seq<Option<Seq<char>>>>,
)
    requires
        all_known(rules, names),
        all_rules_hold(constraint_index(rules, names), grid),
    ensures
        forall|i: int| 0 <= i < rules.len() ==> rule_holds(#[trigger] rules[i], grid),
{
    let events = constraint_index(rules, names);
    assert forall|i: int| 0 <= i < rules.len() implies rule_holds(#[trigger] rules[i], grid) by {
        let rule = rules[i];
        if rule.names.len() > 0 {
            assert(names.contains(rules[i].names[0]));
            let k = choose|k: int| 0 <= k < names.len() && names[k] == rule.names[0];
            assert(rule.names.contains(names[k]));
            rules.lemma_filter_contains(|r: Rule| r.names.contains(names[k]), i);
            let at = choose|at: int|
                0 <= at < events[k].rules.len() && events[k].rules[at] == rule;
            assert(rule_holds(events[k].rules[at], grid));
        }
    }
}

/// Under a `Sequential` rule that lists no name twice, the events of two successive names
/// are in the same room, the second one time slot after the first.
pub proof fn lemma_sequential_successive(
    rule: Rule,
    grid: Seq<Seq<Option<Seq<char>>>>,
    a: int,
    c: Placement,
    q: Placement,
)
    requires
        rule.kind is Sequential,
        rule.names.no_duplicates(),
        rule_holds(rule, grid),
        0 <= a,
        a + 1 < rule.names.len(),
        sits(grid, rule.names[a], c),
        sits(grid, rule.names[a + 1], q),
    ensures
        q.room == c.room,
        q.time.time_slot == c.time.time_slot + 1,
{
    rule.names.index_of_first_ensures(rule.names[a]);
    rule.names.index_of_first_ensures(rule.names[a + 1]);
}

/// Under a `NonConcurrent` rule, the events of two different listed names are at different
/// times.
pub proof fn lemma_non_concurrent_apart(
    rule: Rule,
    grid: Seq<Seq<Option<Seq<char>>>>,
    a: int,
    b: int,
    c: Placement,
    q: Placement,
)
    requires
        rule.kind is NonConcurrent,
        rule_holds(rule, grid),
        0 <= a < rule.names.len(),
        0 <= b < rule.names.len(),
        rule.names[a] != rule.names[b],
        sits(grid, rule.names[a], c),
        sits(grid, rule.names[b], q),
    ensures
        c.time != q.time,
{
}

/// Under an `At` rule every listed event is at the time of the rule, and under an `In` rule
/// in its room.
pub proof fn lemma_fixed_value(rule: Rule, grid: Seq<Seq<Option<Seq<char>>>>, a: int, c: Placement)
    requires
        rule_holds(rule, grid),
        0 <= a < rule.names.len(),
        sits(grid, rule.names[a], c),
    ensures
        rule.kind matches RuleKind::At(t) ==> c.time == t,
        rule.kind matches RuleKind::In(r) ==> c.room == r,
{
}

} // verus!
