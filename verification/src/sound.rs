//! Why a placement that the evaluation allows agrees with the constraints, and why the
//! placed events keep agreeing with them while the search places and retracts.

use vstd::prelude::*;
use crate::evaluate::{
    add_member, add_members, add_rule, add_rules, clashes, demand_in_grid, lookup, no_demand,
    placement_of, sequential_time, verdict_for, Demand, Problem, Verdict,
};
use crate::index::lemma_first_index;
use crate::machine::{
    complete, lemma_place_well_formed, lemma_retract_well_formed, lemma_select_well_formed, run,
    select, step, well_formed, SearchState,
};
use crate::model::{event_names, EventSpec, Placement, Rule, RuleKind, Time};
use crate::slot::{fits, free_cell, in_grid, lemma_free_cell};

verus! {

/// Whether no two events have the same name.
pub open spec fn distinct_names(events: Seq<EventSpec>) -> bool {
    forall|a: int, b: int|
        0 <= a < b < events.len() ==> (#[trigger] events[a]).name != (#[trigger] events[b]).name
}

/// Whether every placed event lies inside the grid.
pub open spec fn placements_in_grid(placed: Seq<Option<Placement>>, slots: int, rooms: int)
    -> bool {
    forall|m: int|
        0 <= m < placed.len() ==> (#[trigger] placed[m] matches Some(q) ==> in_grid(
            q,
            slots,
            rooms,
        ))
}

/// What a rule asks of two of the events it lists: `c` is the cell of the event at list
/// position `own`, `q` the cell of the event at list position `other`.
pub open spec fn pair_ok(kind: RuleKind, own: int, other: int, c: Placement, q: Placement)
    -> bool {
    match kind {
        RuleKind::Sequential => c.room == q.room && c.time.time_slot == sequential_time(
            q.time,
            own,
            other,
        ),
        RuleKind::Concurrent => c.room == q.room,
        RuleKind::NonConcurrent => c.time != q.time,
        _ => true,
    }
}

/// What a rule asks of the cell of one event it lists, whatever the others do.
pub open spec fn alone_ok(kind: RuleKind, c: Placement) -> bool {
    match kind {
        RuleKind::At(t) => c.time == t,
        RuleKind::In(r) => c.room == r,
        _ => true,
    }
}

/// Whether cell `c` for the event called `name` agrees with `rule` as far as the name at
/// list position `j` goes: if the rule lists `name`, the cell has the fixed time or room of
/// the rule, and it stands to the cell of the event at `j`, where that event is placed, as
/// the rule asks.
pub open spec fn respects(
    events: Seq<EventSpec>,
    placed: Seq<Option<Placement>>,
    name: Seq<char>,
    c: Placement,
    rule: Rule,
    j: int,
) -> bool {
    rule.names.index_of_first(name) matches Some(own) ==> {
        &&& alone_ok(rule.kind, c)
        &&& 0 <= j < rule.names.len() ==> (placement_of(events, placed, rule.names[j]) matches Some(
            q,
        ) ==> pair_ok(rule.kind, own, rule.names.index_of_first(rule.names[j]).unwrap(), c, q))
    }
}

/// Whether cell `c` for event `k` agrees with every rule of the event against every event
/// that is placed.
pub open spec fn admissible(
    events: Seq<EventSpec>,
    placed: Seq<Option<Placement>>,
    k: int,
    c: Placement,
) -> bool {
    forall|i: int, j: int|
        0 <= i < events[k].rules.len() ==> #[trigger] respects(
            events,
            placed,
            events[k].name,
            c,
            events[k].rules[i],
            j,
        )
}

/// Whether the placement of event `k` agrees with its rule `i` as far as the name at list
/// position `j` goes, where that name is the name of another event that is placed and that
/// has the rule in its own list too.
pub open spec fn settled(
    events: Seq<EventSpec>,
    placed: Seq<Option<Placement>>,
    k: int,
    i: int,
    j: int,
) -> bool {
    0 <= k < events.len() && 0 <= i < events[k].rules.len() ==> (placed[k] matches Some(c) ==> {
        let rule = events[k].rules[i];
        rule.names.index_of_first(events[k].name) matches Some(own) ==> {
            &&& alone_ok(rule.kind, c)
            &&& 0 <= j < rule.names.len() && rule.names[j] != events[k].name ==> (lookup(
                events,
                rule.names[j],
            ) matches Some(m) ==> (placed[m] matches Some(q) ==> (events[m].rules.contains(rule)
                ==> pair_ok(
                rule.kind,
                own,
                rule.names.index_of_first(rule.names[j]).unwrap(),
                c,
                q,
            ))))
        }
    })
}

/// Whether the placed events agree with their rules: each has the fixed time and room that
/// its rules give it, and any two that share a rule stand to each other as the rule asks.
pub open spec fn consistent(events: Seq<EventSpec>, placed: Seq<Option<Placement>>) -> bool {
    forall|k: int, i: int, j: int| #[trigger] settled(events, placed, k, i, j)
}

/// Whether `later` still asks what `earlier` asked.
spec fn grows(earlier: Demand, later: Demand) -> bool {
    &&& earlier.time is Some ==> later.time == earlier.time
    &&& earlier.room is Some ==> later.room == earlier.room
    &&& forall|t: Time| earlier.banned_times.contains(t) ==> later.banned_times.contains(t)
    &&& later.banned_rooms == earlier.banned_rooms
}

/// Whether demand `d` holds what a rule asks of the event at list position `own` because
/// of the event at list position `other`, placed at `q`.
spec fn member_met(kind: RuleKind, own: int, other: int, q: Placement, d: Demand)
    -> bool {
    match kind {
        RuleKind::Sequential => d.room == Some(q.room) && (d.time matches Some(t) && t.time_slot
            == sequential_time(q.time, own, other)),
        RuleKind::Concurrent => d.room == Some(q.room),
        RuleKind::NonConcurrent => d.banned_times.contains(q.time),
        _ => true,
    }
}

/// Whether demand `d` holds what `rule` asks of the event called `name` because of the
/// event at list position `j`.
spec fn rule_met(
    events: Seq<EventSpec>,
    placed: Seq<Option<Placement>>,
    name: Seq<char>,
    rule: Rule,
    j: int,
    d: Demand,
) -> bool {
    rule.names.index_of_first(name) matches Some(own) ==> match rule.kind {
        RuleKind::At(t) => d.time == Some(t),
        RuleKind::In(r) => d.room == Some(r),
        kind => 0 <= j < rule.names.len() ==> (placement_of(events, placed, rule.names[j]) matches Some(
            q,
        ) ==> member_met(kind, own, rule.names.index_of_first(rule.names[j]).unwrap(), q, d)),
    }
}

proof fn lemma_member_met_grows(
    kind: RuleKind,
    own: int,
    other: int,
    q: Placement,
    earlier: Demand,
    later: Demand,
)
    requires
        member_met(kind, own, other, q, earlier),
        grows(earlier, later),
    ensures
        member_met(kind, own, other, q, later),
{
}

proof fn lemma_add_member(kind: RuleKind, own: int, other: int, q: Placement, slots: int, d: Demand)
    requires
        add_member(kind, own, other, q, slots, d) is Feasible,
        !(kind is At),
        !(kind is In),
        slots <= usize::MAX,
    ensures
        grows(d, add_member(kind, own, other, q, slots, d)->Feasible_0),
        member_met(kind, own, other, q, add_member(kind, own, other, q, slots, d)->Feasible_0),
{
    let next = add_member(kind, own, other, q, slots, d)->Feasible_0;
    if kind is NonConcurrent {
        assert(next.banned_times == d.banned_times.push(q.time));
        assert(next.banned_times[d.banned_times.len() as int] == q.time);
        assert forall|t: Time| d.banned_times.contains(t) implies next.banned_times.contains(
            t,
        ) by {
            let w = choose|w: int| 0 <= w < d.banned_times.len() && d.banned_times[w] == t;
            assert(next.banned_times[w] == t);
        }
    }
}

proof fn lemma_add_members(
    events: Seq<EventSpec>,
    placed: Seq<Option<Placement>>,
    slots: int,
    rooms: int,
    rule: Rule,
    own: int,
    from: int,
    d: Demand,
)
    requires
        0 <= from,
        !(rule.kind is At),
        !(rule.kind is In),
        add_members(events, placed, slots, rule, own, from, d) is Feasible,
        placements_in_grid(placed, slots, rooms),
        placed.len() == events.len(),
        demand_in_grid(d, slots, rooms),
        slots <= usize::MAX,
    ensures
        grows(d, add_members(events, placed, slots, rule, own, from, d)->Feasible_0),
        demand_in_grid(
            add_members(events, placed, slots, rule, own, from, d)->Feasible_0,
            slots,
            rooms,
        ),
        forall|j: int|
            from <= j < rule.names.len() ==> (#[trigger] placement_of(
                events,
                placed,
                rule.names[j],
            ) matches Some(q) ==> member_met(
                rule.kind,
                own,
                rule.names.index_of_first(rule.names[j]).unwrap(),
                q,
                add_members(events, placed, slots, rule, own, from, d)->Feasible_0,
            )),
    decreases rule.names.len() - from,
{
    if from < rule.names.len() {
        let last = add_members(events, placed, slots, rule, own, from, d)->Feasible_0;
        let at = rule.names.index_of_first(rule.names[from]).unwrap();
        let here = placement_of(events, placed, rule.names[from]);
        let next = match here {
            Some(q) => add_member(rule.kind, own, at, q, slots, d)->Feasible_0,
            None => d,
        };
        if here is Some {
            let q = here->Some_0;
            event_names(events).index_of_first_ensures(rule.names[from]);
            assert(placed[lookup(events, rule.names[from])->Some_0] == Some(q));
            assert(in_grid(q, slots, rooms));
            lemma_add_member(rule.kind, own, at, q, slots, d);
        }
        lemma_add_members(events, placed, slots, rooms, rule, own, from + 1, next);
        assert forall|j: int| from <= j < rule.names.len() implies (#[trigger] placement_of(
            events,
            placed,
            rule.names[j],
        ) matches Some(q) ==> member_met(
            rule.kind,
            own,
            rule.names.index_of_first(rule.names[j]).unwrap(),
            q,
            last,
        )) by {
            if j == from && here is Some {
                lemma_member_met_grows(rule.kind, own, at, here->Some_0, next, last);
            }
        }
    }
}

proof fn lemma_add_rule(
    p: Problem,
    placed: Seq<Option<Placement>>,
    name: Seq<char>,
    rule: Rule,
    d: Demand,
)
    requires
        add_rule(p, placed, name, rule, d) is Feasible,
        placements_in_grid(placed, p.slots, p.rooms),
        placed.len() == p.events.len(),
        demand_in_grid(d, p.slots, p.rooms),
        p.slots <= usize::MAX,
    ensures
        grows(d, add_rule(p, placed, name, rule, d)->Feasible_0),
        demand_in_grid(add_rule(p, placed, name, rule, d)->Feasible_0, p.slots, p.rooms),
        forall|j: int| #[trigger]
            rule_met(p.events, placed, name, rule, j, add_rule(p, placed, name, rule, d)->Feasible_0),
{
    match rule.names.index_of_first(name) {
        None => {},
        Some(own) => {
            match rule.kind {
                RuleKind::At(t) => {},
                RuleKind::In(r) => {},
                _ => {
                    lemma_add_members(p.events, placed, p.slots, p.rooms, rule, own, 0, d);
                },
            }
        },
    }
}

proof fn lemma_rule_met_grows(
    events: Seq<EventSpec>,
    placed: Seq<Option<Placement>>,
    name: Seq<char>,
    rule: Rule,
    j: int,
    earlier: Demand,
    later: Demand,
)
    requires
        rule_met(events, placed, name, rule, j, earlier),
        grows(earlier, later),
        earlier.time is Some || !(rule.kind is At) || rule.names.index_of_first(name) is None,
        earlier.room is Some || !(rule.kind is In) || rule.names.index_of_first(name) is None,
    ensures
        rule_met(events, placed, name, rule, j, later),
{
}

proof fn lemma_add_rules(
    p: Problem,
    placed: Seq<Option<Placement>>,
    name: Seq<char>,
    rules: Seq<Rule>,
    from: int,
    d: Demand,
)
    requires
        0 <= from,
        add_rules(p, placed, name, rules, from, d) is Feasible,
        placements_in_grid(placed, p.slots, p.rooms),
        placed.len() == p.events.len(),
        demand_in_grid(d, p.slots, p.rooms),
        p.slots <= usize::MAX,
    ensures
        grows(d, add_rules(p, placed, name, rules, from, d)->Feasible_0),
        demand_in_grid(add_rules(p, placed, name, rules, from, d)->Feasible_0, p.slots, p.rooms),
        forall|i: int, j: int|
            from <= i < rules.len() ==> #[trigger] rule_met(
                p.events,
                placed,
                name,
                rules[i],
                j,
                add_rules(p, placed, name, rules, from, d)->Feasible_0,
            ),
    decreases rules.len() - from,
{
    if from < rules.len() {
        let last = add_rules(p, placed, name, rules, from, d)->Feasible_0;
        let next = add_rule(p, placed, name, rules[from], d)->Feasible_0;
        lemma_add_rule(p, placed, name, rules[from], d);
        lemma_add_rules(p, placed, name, rules, from + 1, next);
        assert forall|i: int, j: int| from <= i < rules.len() implies #[trigger] rule_met(
            p.events,
            placed,
            name,
            rules[i],
            j,
            last,
        ) by {
            if i == from {
                assert(rule_met(p.events, placed, name, rules[from], j, next));
                lemma_rule_met_grows(p.events, placed, name, rules[from], j, next, last);
            }
        }
    }
}

/// A cell that fits the demand of a feasible verdict agrees with every rule of the event
/// against every placed event, and the demand asks for nothing outside the grid.
pub proof fn lemma_verdict_sound(p: Problem, placed: Seq<Option<Placement>>, k: int, d: Demand)
    requires
        0 <= k < p.events.len(),
        placed.len() == p.events.len(),
        placements_in_grid(placed, p.slots, p.rooms),
        p.slots <= usize::MAX,
        verdict_for(p, placed, k) == Verdict::Feasible(d),
    ensures
        demand_in_grid(d, p.slots, p.rooms),
        !clashes(d),
        forall|c: Placement| fits(d, c) ==> #[trigger] admissible(p.events, placed, k, c),
{
    let name = p.events[k].name;
    let rules = p.events[k].rules;
    lemma_add_rules(p, placed, name, rules, 0, no_demand());
    assert forall|c: Placement| fits(d, c) implies #[trigger] admissible(
        p.events,
        placed,
        k,
        c,
    ) by {
        assert forall|i: int, j: int| 0 <= i < rules.len() implies #[trigger] respects(
            p.events,
            placed,
            name,
            c,
            rules[i],
            j,
        ) by {
            assert(rule_met(p.events, placed, name, rules[i], j, d));
        }
    }
}

/// Where names are distinct, the first event called like event `k` is event `k`.
pub proof fn lemma_lookup_own(events: Seq<EventSpec>, k: int)
    requires
        distinct_names(events),
        0 <= k < events.len(),
    ensures
        lookup(events, events[k].name) == Some(k),
{
    let names = event_names(events);
    assert forall|j: int| 0 <= j < k implies names[j] != events[k].name by {
        assert(events[j].name != events[k].name);
    }
    lemma_first_index(names, events[k].name, k);
}

/// The event that a name is looked up to has that name.
pub proof fn lemma_lookup_named(events: Seq<EventSpec>, name: Seq<char>)
    ensures
        lookup(events, name) matches Some(m) ==> 0 <= m < events.len() && events[m].name == name,
        lookup(events, name) is None ==> !event_names(events).contains(name),
{
    event_names(events).index_of_first_ensures(name);
}

/// What a rule asks of two events does not depend on which of them is asked.
pub proof fn lemma_pair_ok_symmetric(
    kind: RuleKind,
    own: int,
    other: int,
    c: Placement,
    q: Placement,
)
    requires
        pair_ok(kind, own, other, c, q),
    ensures
        pair_ok(kind, other, own, q, c),
{
}

/// Placing an event in a cell that agrees with its rules keeps the placed events in
/// agreement with theirs.
pub proof fn lemma_place_consistent(
    events: Seq<EventSpec>,
    placed: Seq<Option<Placement>>,
    k0: int,
    c0: Placement,
)
    requires
        distinct_names(events),
        placed.len() == events.len(),
        0 <= k0 < events.len(),
        consistent(events, placed),
        admissible(events, placed, k0, c0),
    ensures
        consistent(events, placed.update(k0, Some(c0))),
{
    let after = placed.update(k0, Some(c0));
    assert forall|k: int, i: int, j: int| #[trigger] settled(events, after, k, i, j) by {
        if 0 <= k < events.len() && 0 <= i < events[k].rules.len() && after[k] is Some {
            let rule = events[k].rules[i];
            let c = after[k]->Some_0;
            if rule.names.index_of_first(events[k].name) is Some {
                let own = rule.names.index_of_first(events[k].name)->Some_0;
                rule.names.index_of_first_ensures(events[k].name);
                if k == k0 {
                    assert(respects(events, placed, events[k].name, c0, rule, j));
                    if 0 <= j < rule.names.len() && rule.names[j] != events[k].name {
                        lemma_lookup_named(events, rule.names[j]);
                    }
                } else {
                    assert(settled(events, placed, k, i, j));
                    if 0 <= j < rule.names.len() && rule.names[j] != events[k].name {
                        lemma_lookup_named(events, rule.names[j]);
                        if lookup(events, rule.names[j]) == Some(k0) && events[k0].rules.contains(
                            rule,
                        ) {
                            let i0 = choose|i0: int|
                                0 <= i0 < events[k0].rules.len() && events[k0].rules[i0] == rule;
                            assert(respects(events, placed, events[k0].name, c0, rule, own));
                            lemma_lookup_own(events, k);
                            assert(placement_of(events, placed, rule.names[own]) == Some(c));
                            rule.names.index_of_first_ensures(events[k0].name);
                            rule.names.index_of_first_ensures(rule.names[own]);
                            let own0 = rule.names.index_of_first(events[k0].name)->Some_0;
                            lemma_pair_ok_symmetric(rule.kind, own0, own, c0, c);
                        }
                    }
                }
            }
        }
    }
}

/// Taking an event off the grid keeps the placed events in agreement with their rules.
pub proof fn lemma_unplace_consistent(
    events: Seq<EventSpec>,
    placed: Seq<Option<Placement>>,
    k0: int,
)
    requires
        placed.len() == events.len(),
        0 <= k0 < events.len(),
        consistent(events, placed),
    ensures
        consistent(events, placed.update(k0, None)),
{
    let after = placed.update(k0, None);
    assert forall|k: int, i: int, j: int| #[trigger] settled(events, after, k, i, j) by {
        assert(settled(events, placed, k, i, j));
        if 0 <= k < events.len() && 0 <= i < events[k].rules.len() && 0 <= j
            < events[k].rules[i].names.len() {
            lemma_lookup_named(events, events[k].rules[i].names[j]);
        }
    }
}

/// An attempt keeps a well-formed state well formed, and, where no two events have the same
/// name, it keeps the placed events in agreement with their rules.
pub proof fn lemma_step_keeps(p: Problem, s: SearchState)
    requires
        well_formed(s, p.events.len() as int, p.slots, p.rooms),
        !complete(s),
        p.events.len() <= usize::MAX,
        0 <= p.slots <= usize::MAX,
        0 <= p.rooms <= usize::MAX,
    ensures
        well_formed(step(p, s).0, p.events.len() as int, p.slots, p.rooms),
        distinct_names(p.events) && consistent(p.events, s.placed) ==> consistent(
            p.events,
            step(p, s).0.placed,
        ),
{
    let n = p.events.len() as int;
    let chosen = select(s);
    lemma_select_well_formed(s, n, p.slots, p.rooms);
    lemma_retract_well_formed(chosen, n, p.slots, p.rooms);
    let k = chosen.current->Some_0 as int;
    if chosen.history.len() > 0 && consistent(p.events, chosen.placed) {
        let c = chosen.history.last();
        let undone = chosen.grid[c.time.time_slot as int][c.room.room_num as int]->Some_0 as int;
        lemma_unplace_consistent(p.events, chosen.placed, undone);
    }
    match verdict_for(p, chosen.placed, k) {
        Verdict::Feasible(d) => {
            lemma_verdict_sound(p, chosen.placed, k, d);
            lemma_free_cell(chosen.grid, d, p.slots, p.rooms);
            match free_cell(chosen.grid, d, p.slots, p.rooms) {
                Some(c) => {
                    lemma_place_well_formed(chosen, n, p.slots, p.rooms, k, c);
                    if distinct_names(p.events) && consistent(p.events, chosen.placed) {
                        lemma_place_consistent(p.events, chosen.placed, k, c);
                    }
                },
                None => {},
            }
        },
        _ => {},
    }
}

/// A run keeps a well-formed state well formed, and, where no two events have the same
/// name, it keeps the placed events in agreement with their rules.
pub proof fn lemma_run_keeps(p: Problem, s: SearchState, attempts: nat)
    requires
        well_formed(s, p.events.len() as int, p.slots, p.rooms),
        p.events.len() <= usize::MAX,
        0 <= p.slots <= usize::MAX,
        0 <= p.rooms <= usize::MAX,
    ensures
        well_formed(run(p, s, attempts).0, p.events.len() as int, p.slots, p.rooms),
        distinct_names(p.events) && consistent(p.events, s.placed) ==> consistent(
            p.events,
            run(p, s, attempts).0.placed,
        ),
    decreases attempts,
{
    if !complete(s) && attempts > 0 {
        lemma_step_keeps(p, s);
        let (next, went) = step(p, s);
        if went is Ok {
            lemma_run_keeps(p, next, (attempts - 1) as nat);
        }
    }
}

} // verus!
