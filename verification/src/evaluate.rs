//! Constraint evaluation: what the constraints of one event demand of its placement, given
//! where the other events have been placed so far.

use vstd::prelude::*;
use crate::index::{find_name, lemma_first_index};
use crate::model::{
    event_names, events_of, names_of, Constraint, Event, EventSpec, Placement, Room, Rule,
    RuleKind, Time,
};
use crate::names::name_eq;

verus! {

/// The model of [`Requirements`]: a required time and room, where one is fixed, and the
/// times and rooms that are ruled out, in the order in which they were ruled out.
pub struct Demand {
    pub time: Option<Time>,
    pub room: Option<Room>,
    pub banned_times: Seq<Time>,
    pub banned_rooms: Seq<Room>,
}

/// The model of an [`Evaluation`].
pub enum Verdict {
    /// The constraints can be met by a placement that fits the demand.
    Feasible(Demand),
    /// No placement can meet the constraints while the other events stay where they are.
    /// `offset` tells whether a time derived from a `Sequential` constraint fell outside the
    /// grid.
    Infeasible { offset: bool },
    /// Two constraints both try to fix the time or the room.
    Unsupported,
}

/// What the constraints of one event require of its placement.
#[derive(Debug)]
pub struct Requirements {
    pub time: Option<Time>,
    pub room: Option<Room>,
    pub banned_times: Vec<Time>,
    pub banned_rooms: Vec<Room>,
}

/// The result of evaluating the constraints of one event.
#[derive(Debug)]
pub enum Evaluation {
    Feasible(Requirements),
    Infeasible { offset: bool },
    Unsupported,
}

impl View for Requirements {
    type V = Demand;

    open spec fn view(&self) -> Demand {
        Demand {
            time: self.time,
            room: self.room,
            banned_times: self.banned_times@,
            banned_rooms: self.banned_rooms@,
        }
    }
}

impl View for Evaluation {
    type V = Verdict;

    open spec fn view(&self) -> Verdict {
        match *self {
            Evaluation::Feasible(r) => Verdict::Feasible(r@),
            Evaluation::Infeasible { offset } => Verdict::Infeasible { offset },
            Evaluation::Unsupported => Verdict::Unsupported,
        }
    }
}

/// The fixed data of a search: the events in the order of visiting, and the size of the
/// grid.
pub struct Problem {
    pub events: Seq<EventSpec>,
    pub rooms: int,
    pub slots: int,
}

/// The demand that nothing has been asked of yet.
pub open spec fn no_demand() -> Demand {
    Demand { time: None, room: None, banned_times: Seq::empty(), banned_rooms: Seq::empty() }
}

/// The position of the first event called `name`, if there is one.
pub open spec fn lookup(events: Seq<EventSpec>, name: Seq<char>) -> Option<int> {
    event_names(events).index_of_first(name)
}

/// Where the event called `name` is placed; `None` if it is not placed, or if there is no
/// such event.
pub open spec fn placement_of(
    events: Seq<EventSpec>,
    placed: Seq<Option<Placement>>,
    name: Seq<char>,
) -> Option<Placement> {
    match lookup(events, name) {
        Some(m) => placed[m],
        None => None,
    }
}

/// The time that a `Sequential` rule derives for the event at list position `own` from an
/// event at list position `other` that is placed at time `t`.
pub open spec fn sequential_time(t: Time, own: int, other: int) -> int {
    t.time_slot + own - other
}

/// The demand after taking into account one listed event that is placed at `q`. `own` and
/// `other` are the positions in the rule's list of the event under evaluation and of the
/// placed event.
pub open spec fn add_member(
    kind: RuleKind,
    own: int,
    other: int,
    q: Placement,
    slots: int,
    d: Demand,
) -> Verdict {
    match kind {
        RuleKind::Sequential => {
            let target = sequential_time(q.time, own, other);
            if target < 0 || target >= slots {
                Verdict::Infeasible { offset: true }
            } else if d.time is None && d.room is None {
                Verdict::Feasible(
                    Demand {
                        time: Some(Time { time_slot: target as usize }),
                        room: Some(q.room),
                        ..d
                    },
                )
            } else {
                Verdict::Unsupported
            }
        },
        RuleKind::Concurrent => {
            if d.room is None {
                Verdict::Feasible(Demand { room: Some(q.room), ..d })
            } else if d.room == Some(q.room) {
                Verdict::Feasible(d)
            } else {
                Verdict::Unsupported
            }
        },
        RuleKind::NonConcurrent => Verdict::Feasible(
            Demand { banned_times: d.banned_times.push(q.time), ..d },
        ),
        _ => Verdict::Feasible(d),
    }
}

/// The demand after walking the names that `rule` lists, from list position `from` on.
/// Names of events that are not placed, and names of no event, contribute nothing. The walk
/// ends at the first name that makes the attempt infeasible or unsupported.
pub open spec fn add_members(
    events: Seq<EventSpec>,
    placed: Seq<Option<Placement>>,
    slots: int,
    rule: Rule,
    own: int,
    from: int,
    d: Demand,
) -> Verdict
    decreases rule.names.len() - from,
{
    if from < 0 || from >= rule.names.len() {
        Verdict::Feasible(d)
    } else {
        let step = match placement_of(events, placed, rule.names[from]) {
            Some(q) => add_member(
                rule.kind,
                own,
                rule.names.index_of_first(rule.names[from]).unwrap(),
                q,
                slots,
                d,
            ),
            None => Verdict::Feasible(d),
        };
        match step {
            Verdict::Feasible(next) => add_members(events, placed, slots, rule, own, from + 1, next),
            other => other,
        }
    }
}

/// The demand after adopting a fixed time.
pub open spec fn fix_time(t: Time, slots: int, d: Demand) -> Verdict {
    if t.time_slot >= slots {
        Verdict::Infeasible { offset: false }
    } else if d.time is None {
        Verdict::Feasible(Demand { time: Some(t), ..d })
    } else if d.time == Some(t) {
        Verdict::Feasible(d)
    } else {
        Verdict::Infeasible { offset: false }
    }
}

/// The demand after adopting a fixed room.
pub open spec fn fix_room(r: Room, rooms: int, d: Demand) -> Verdict {
    if r.room_num >= rooms {
        Verdict::Infeasible { offset: false }
    } else if d.room is None {
        Verdict::Feasible(Demand { room: Some(r), ..d })
    } else if d.room == Some(r) {
        Verdict::Feasible(d)
    } else {
        Verdict::Infeasible { offset: false }
    }
}

/// The demand on the event called `name` after taking one rule into account. A rule that
/// does not list the name asks nothing of the event.
pub open spec fn add_rule(
    p: Problem,
    placed: Seq<Option<Placement>>,
    name: Seq<char>,
    rule: Rule,
    d: Demand,
) -> Verdict {
    match rule.names.index_of_first(name) {
        None => Verdict::Feasible(d),
        Some(own) => match rule.kind {
            RuleKind::At(t) => fix_time(t, p.slots, d),
            RuleKind::In(r) => fix_room(r, p.rooms, d),
            _ => add_members(p.events, placed, p.slots, rule, own, 0, d),
        },
    }
}

/// The demand on the event called `name` after walking `rules` from position `from` on. The
/// walk ends at the first rule that makes the attempt infeasible or unsupported.
pub open spec fn add_rules(
    p: Problem,
    placed: Seq<Option<Placement>>,
    name: Seq<char>,
    rules: Seq<Rule>,
    from: int,
    d: Demand,
) -> Verdict
    decreases rules.len() - from,
{
    if from < 0 || from >= rules.len() {
        Verdict::Feasible(d)
    } else {
        match add_rule(p, placed, name, rules[from], d) {
            Verdict::Feasible(next) => add_rules(p, placed, name, rules, from + 1, next),
            other => other,
        }
    }
}

/// Whether the demand asks for a time or a room that it also rules out.
pub open spec fn clashes(d: Demand) -> bool {
    ||| d.room matches Some(r) && d.banned_rooms.contains(r)
    ||| d.time matches Some(t) && d.banned_times.contains(t)
}

/// The verdict on the event at position `k`: its rules are walked in order against the
/// events that are placed, and a demand that contradicts itself is infeasible.
pub open spec fn verdict_for(p: Problem, placed: Seq<Option<Placement>>, k: int) -> Verdict {
    match add_rules(p, placed, p.events[k].name, p.events[k].rules, 0, no_demand()) {
        Verdict::Feasible(d) => if clashes(d) {
            Verdict::Infeasible { offset: false }
        } else {
            Verdict::Feasible(d)
        },
        other => other,
    }
}

/// Whether a required time and room lie inside the grid.
pub open spec fn demand_in_grid(d: Demand, slots: int, rooms: int) -> bool {
    &&& d.time matches Some(t) ==> t.time_slot < slots
    &&& d.room matches Some(r) ==> r.room_num < rooms
}

/// The problem that the scheduler works on, as a model.
pub open spec fn problem_of(events: Seq<Event>, room_count: usize, time_slots: usize) -> Problem {
    Problem { events: events_of(events), rooms: room_count as int, slots: time_slots as int }
}

/// The position of the first event called `name`, if there is one.
pub fn find_event(events: &[Event], name: &str) -> (r: Option<usize>)
    ensures
        match r {
            Some(k) => lookup(events_of(events@), name@) == Some(k as int) && k < events.len(),
            None => lookup(events_of(events@), name@) is None,
        },
{
    let ghost s = event_names(events_of(events@));
    let mut i: usize = 0;
    while i < events.len()
        invariant
            i <= events.len(),
            s == event_names(events_of(events@)),
            forall|j: int| 0 <= j < i ==> s[j] != name@,
        decreases events.len() - i,
    {
        if name_eq(events[i].name, name) {
            proof {
                lemma_first_index(s, name@, i as int);
            }
            return Some(i);
        }
        i += 1;
    }
    proof {
        s.index_of_first_ensures(name@);
    }
    None
}

impl Requirements {
    /// Requirements that ask for nothing.
    pub fn new() -> (r: Requirements)
        ensures
            r@ == no_demand(),
    {
        Requirements { time: None, room: None, banned_times: Vec::new(), banned_rooms: Vec::new() }
    }

    /// Whether the time is ruled out.
    pub fn bans_time(&self, t: Time) -> (b: bool)
        ensures
            b == self@.banned_times.contains(t),
    {
        let mut i: usize = 0;
        while i < self.banned_times.len()
            invariant
                i <= self.banned_times.len(),
                forall|j: int| 0 <= j < i ==> self.banned_times[j] != t,
            decreases self.banned_times.len() - i,
        {
            if self.banned_times[i] == t {
                return true;
            }
            i += 1;
        }
        false
    }

    /// Whether the room is ruled out.
    pub fn bans_room(&self, r: Room) -> (b: bool)
        ensures
            b == self@.banned_rooms.contains(r),
    {
        let mut i: usize = 0;
        while i < self.banned_rooms.len()
            invariant
                i <= self.banned_rooms.len(),
                forall|j: int| 0 <= j < i ==> self.banned_rooms[j] != r,
            decreases self.banned_rooms.len() - i,
        {
            if self.banned_rooms[i] == r {
                return true;
            }
            i += 1;
        }
        false
    }

    /// Whether a required time or room is also ruled out.
    pub fn clashes(&self) -> (b: bool)
        ensures
            b == clashes(self@),
    {
        let room_clash = match self.room {
            Some(r) => self.bans_room(r),
            None => false,
        };
        let time_clash = match self.time {
            Some(t) => self.bans_time(t),
            None => false,
        };
        room_clash || time_clash
    }
}

/// The time that a `Sequential` constraint derives, where it lies inside the grid.
fn sequential_target(t: Time, own: usize, other: usize, time_slots: usize) -> (r: Option<Time>)
    ensures
        r is Some <==> 0 <= sequential_time(t, own as int, other as int) < time_slots,
        r matches Some(target) ==> target.time_slot == sequential_time(
            t,
            own as int,
            other as int,
        ),
{
    if own >= other {
        let ahead = own - other;
        if t.time_slot < time_slots && ahead < time_slots - t.time_slot {
            Some(Time { time_slot: t.time_slot + ahead })
        } else {
            None
        }
    } else {
        let behind = other - own;
        if behind <= t.time_slot && t.time_slot - behind < time_slots {
            Some(Time { time_slot: t.time_slot - behind })
        } else {
            None
        }
    }
}

/// Takes one placed member of a `Sequential`, `Concurrent` or `NonConcurrent` constraint
/// into account.
fn apply_member(
    constraint: &Constraint,
    own: usize,
    other: usize,
    q: Placement,
    time_slots: usize,
    req: Requirements,
) -> (e: Evaluation)
    ensures
        e@ == add_member(constraint@.kind, own as int, other as int, q, time_slots as int, req@),
{
    let mut req = req;
    match constraint {
        Constraint::Sequential(_) => {
            match sequential_target(q.time, own, other, time_slots) {
                None => Evaluation::Infeasible { offset: true },
                Some(target) => {
                    if req.time.is_none() && req.room.is_none() {
                        req.time = Some(target);
                        req.room = Some(q.room);
                        Evaluation::Feasible(req)
                    } else {
                        Evaluation::Unsupported
                    }
                },
            }
        },
        Constraint::Concurrent(_) => {
            match req.room {
                None => {
                    req.room = Some(q.room);
                    Evaluation::Feasible(req)
                },
                Some(r) => {
                    if r == q.room {
                        Evaluation::Feasible(req)
                    } else {
                        Evaluation::Unsupported
                    }
                },
            }
        },
        Constraint::NonConcurrent(_) => {
            req.banned_times.push(q.time);
            Evaluation::Feasible(req)
        },
        _ => Evaluation::Feasible(req),
    }
}

/// Walks the names that a constraint lists and takes each placed event into account.
fn apply_members(
    events: &[Event],
    placed: &Vec<Option<Placement>>,
    time_slots: usize,
    constraint: &Constraint,
    own: usize,
    req: Requirements,
) -> (e: Evaluation)
    requires
        placed.len() == events.len(),
    ensures
        e@ == add_members(
            events_of(events@),
            placed@,
            time_slots as int,
            constraint@,
            own as int,
            0,
            req@,
        ),
{
    let listed = constraint.names();
    let ghost evs = events_of(events@);
    let ghost rule = constraint@;
    let mut acc = req;
    let mut j: usize = 0;
    while j < listed.len()
        invariant
            j <= listed.len(),
            placed.len() == events.len(),
            evs == events_of(events@),
            rule == constraint@,
            names_of(listed@) == rule.names,
            add_members(evs, placed@, time_slots as int, rule, own as int, 0, req@)
                == add_members(evs, placed@, time_slots as int, rule, own as int, j as int, acc@),
        decreases listed.len() - j,
    {
        let name = listed[j];
        assert(rule.names[j as int] == name@);
        match find_event(events, name) {
            None => {},
            Some(m) => {
                match placed[m] {
                    None => {},
                    Some(q) => {
                        let at = find_name(listed.as_slice(), name);
                        proof {
                            rule.names.index_of_first_ensures(name@);
                            assert(placed@[m as int] == Some(q));
                            assert(placement_of(evs, placed@, rule.names[j as int]) == Some(q));
                        }
                        let step = apply_member(constraint, own, at.unwrap(), q, time_slots, acc);
                        match step {
                            Evaluation::Feasible(next) => {
                                acc = next;
                            },
                            failed => {
                                return failed;
                            },
                        }
                    },
                }
            },
        }
        j += 1;
    }
    Evaluation::Feasible(acc)
}

/// Takes one constraint into account for the event called `name`.
fn apply_constraint(
    events: &[Event],
    placed: &Vec<Option<Placement>>,
    time_slots: usize,
    room_count: usize,
    name: &str,
    constraint: &Constraint,
    req: Requirements,
) -> (e: Evaluation)
    requires
        placed.len() == events.len(),
    ensures
        e@ == add_rule(problem_of(events@, room_count, time_slots), placed@, name@, constraint@, req@),
{
    let mut req = req;
    match find_name(constraint.names().as_slice(), name) {
        None => Evaluation::Feasible(req),
        Some(own) => {
            match constraint {
                Constraint::At(t, _) => {
                    if t.time_slot >= time_slots {
                        Evaluation::Infeasible { offset: false }
                    } else {
                        match req.time {
                            None => {
                                req.time = Some(*t);
                                Evaluation::Feasible(req)
                            },
                            Some(fixed) => {
                                if fixed == *t {
                                    Evaluation::Feasible(req)
                                } else {
                                    Evaluation::Infeasible { offset: false }
                                }
                            },
                        }
                    }
                },
                Constraint::In(r, _) => {
                    if r.room_num >= room_count {
                        Evaluation::Infeasible { offset: false }
                    } else {
                        match req.room {
                            None => {
                                req.room = Some(*r);
                                Evaluation::Feasible(req)
                            },
                            Some(fixed) => {
                                if fixed == *r {
                                    Evaluation::Feasible(req)
                                } else {
                                    Evaluation::Infeasible { offset: false }
                                }
                            },
                        }
                    }
                },
                _ => apply_members(events, placed, time_slots, constraint, own, req),
            }
        },
    }
}

/// Evaluates the constraints of the event at position `k` against the events that are
/// placed: walks its constraints in order and gathers what they require of its placement.
pub fn evaluate(
    events: &[Event],
    placed: &Vec<Option<Placement>>,
    time_slots: usize,
    room_count: usize,
    k: usize,
) -> (e: Evaluation)
    requires
        k < events.len(),
        placed.len() == events.len(),
    ensures
        e@ == verdict_for(problem_of(events@, room_count, time_slots), placed@, k as int),
{
    let event = &events[k];
    let ghost p = problem_of(events@, room_count, time_slots);
    let ghost rules = p.events[k as int].rules;
    let mut req = Requirements::new();
    let mut i: usize = 0;
    while i < event.constraints.len()
        invariant
            i <= event.constraints.len(),
            k < events.len(),
            placed.len() == events.len(),
            event == &events[k as int],
            p == problem_of(events@, room_count, time_slots),
            rules == p.events[k as int].rules,
            rules.len() == event.constraints.len(),
            add_rules(p, placed@, event.name@, rules, 0, no_demand()) == add_rules(
                p,
                placed@,
                event.name@,
                rules,
                i as int,
                req@,
            ),
        decreases event.constraints.len() - i,
    {
        assert(rules[i as int] == event.constraints[i as int]@);
        let step = apply_constraint(
            events,
            placed,
            time_slots,
            room_count,
            event.name,
            &event.constraints[i],
            req,
        );
        match step {
            Evaluation::Feasible(next) => {
                req = next;
            },
            failed => {
                return failed;
            },
        }
        i += 1;
    }
    if req.clashes() {
        Evaluation::Infeasible { offset: false }
    } else {
        Evaluation::Feasible(req)
    }
}

} // verus!
