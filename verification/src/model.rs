//! The data of a timetabling problem: rooms, time slots, constraints over named events,
//! and the mathematical model that the contracts of this crate are written over.

use vstd::prelude::*;

verus! {

/// A room, identified by its number. A grid with `room_count` rooms has rooms
/// `0 .. room_count`.
#[derive(Clone, Copy, Debug, PartialEq, Eq, PartialOrd, Ord, Structural)]
pub struct Room {
    pub room_num: usize,
}

/// A time slot, identified by its number. A grid with `time_slots` slots has slots
/// `0 .. time_slots`.
#[derive(Clone, Copy, Debug, PartialEq, Eq, PartialOrd, Ord, Structural)]
pub struct Time {
    pub time_slot: usize,
}

/// The cell of the grid that one event is assigned to.
#[derive(Clone, Copy, Debug, PartialEq, Eq, PartialOrd, Ord, Structural)]
pub struct Placement {
    pub room: Room,
    pub time: Time,
}

/// A scheduling rule over the events that it lists by name.
#[derive(Clone, Debug)]
pub enum Constraint<'a> {
    /// The listed events share one room, and their times follow each other as their
    /// positions in the list do.
    Sequential(Vec<&'a str>),
    /// The listed events share one room.
    Concurrent(Vec<&'a str>),
    /// The listed events take place at the given time.
    At(Time, Vec<&'a str>),
    /// The listed events take place in the given room.
    In(Room, Vec<&'a str>),
    /// No two of the listed events take place at the same time.
    NonConcurrent(Vec<&'a str>),
}

/// An event together with the constraints that list it.
#[derive(Clone, Debug)]
pub struct Event<'a> {
    pub name: &'a str,
    pub constraints: Vec<Constraint<'a>>,
}

/// Why no timetable was produced.
#[derive(Clone, Copy, Debug, PartialEq, Eq, Structural)]
pub enum ScheduleError {
    /// A constraint lists a name that belongs to no event.
    UnknownEventReference,
    /// Two constraints on one event both try to fix its time or its room.
    UnsupportedConstraintCombination,
    /// The attempt limit was reached while the last attempt failed because a time derived
    /// from a `Sequential` constraint fell outside the grid.
    InfeasibleSequentialOffset,
    /// The attempt limit was reached before every event was placed.
    Unsatisfiable,
}

/// What kind of rule a constraint is, with the fixed time or room where it has one.
pub enum RuleKind {
    Sequential,
    Concurrent,
    At(Time),
    In(Room),
    NonConcurrent,
}

/// The mathematical model of a [`Constraint`]: its kind and the names it lists, each name
/// a sequence of characters.
pub struct Rule {
    pub kind: RuleKind,
    pub names: Seq<Seq<char>>,
}

/// The mathematical model of an [`Event`].
pub struct EventSpec {
    pub name: Seq<char>,
    pub rules: Seq<Rule>,
}

/// The character sequences of a list of names.
pub open spec fn names_of(v: Seq<&str>) -> Seq<Seq<char>> {
    Seq::new(v.len(), |i: int| v[i]@)
}

impl<'a> View for Constraint<'a> {
    type V = Rule;

    open spec fn view(&self) -> Rule {
        match *self {
            Constraint::Sequential(v) => Rule { kind: RuleKind::Sequential, names: names_of(v@) },
            Constraint::Concurrent(v) => Rule { kind: RuleKind::Concurrent, names: names_of(v@) },
            Constraint::At(t, v) => Rule { kind: RuleKind::At(t), names: names_of(v@) },
            Constraint::In(r, v) => Rule { kind: RuleKind::In(r), names: names_of(v@) },
            Constraint::NonConcurrent(v) => Rule {
                kind: RuleKind::NonConcurrent,
                names: names_of(v@),
            },
        }
    }
}

/// The models of a list of constraints, in the same order.
pub open spec fn rules_of(cs: Seq<Constraint>) -> Seq<Rule> {
    Seq::new(cs.len(), |i: int| cs[i]@)
}

impl<'a> View for Event<'a> {
    type V = EventSpec;

    open spec fn view(&self) -> EventSpec {
        EventSpec { name: self.name@, rules: rules_of(self.constraints@) }
    }
}

/// The models of a list of events, in the same order.
pub open spec fn events_of(es: Seq<Event>) -> Seq<EventSpec> {
    Seq::new(es.len(), |i: int| es[i]@)
}

/// The names of a list of events, in the same order.
pub open spec fn event_names(events: Seq<EventSpec>) -> Seq<Seq<char>> {
    Seq::new(events.len(), |i: int| events[i].name)
}

impl<'a> Constraint<'a> {
    /// The names that the constraint lists.
    pub fn names(&self) -> (v: &Vec<&'a str>)
        ensures
            names_of(v@) == self@.names,
    {
        match self {
            Constraint::Sequential(v) => v,
            Constraint::Concurrent(v) => v,
            Constraint::At(_, v) => v,
            Constraint::In(_, v) => v,
            Constraint::NonConcurrent(v) => v,
        }
    }

    /// A copy of the constraint: the same kind, listing the same names in the same order.
    pub fn duplicate(&self) -> (c: Constraint<'a>)
        ensures
            c@ == self@,
    {
        let names = copy_names(self.names());
        match self {
            Constraint::Sequential(_) => Constraint::Sequential(names),
            Constraint::Concurrent(_) => Constraint::Concurrent(names),
            Constraint::At(t, _) => Constraint::At(*t, names),
            Constraint::In(r, _) => Constraint::In(*r, names),
            Constraint::NonConcurrent(_) => Constraint::NonConcurrent(names),
        }
    }
}

impl<'a> Event<'a> {
    /// A copy of the event: the same name and the same constraints in the same order.
    pub fn duplicate(&self) -> (e: Event<'a>)
        ensures
            e@ == self@,
    {
        let mut constraints: Vec<Constraint<'a>> = Vec::new();
        let mut i: usize = 0;
        while i < self.constraints.len()
            invariant
                i <= self.constraints.len(),
                constraints.len() == i,
                forall|j: int| 0 <= j < i ==> constraints[j]@ == self.constraints[j]@,
            decreases self.constraints.len() - i,
        {
            constraints.push(self.constraints[i].duplicate());
            i += 1;
        }
        assert(rules_of(constraints@) =~= rules_of(self.constraints@));
        Event { name: self.name, constraints }
    }
}

/// A new list holding the same names in the same order.
fn copy_names<'a>(v: &Vec<&'a str>) -> (out: Vec<&'a str>)
    ensures
        out@ == v@,
{
    let mut out: Vec<&'a str> = Vec::new();
    let mut i: usize = 0;
    while i < v.len()
        invariant
            i <= v.len(),
            out@ == v@.take(i as int),
        decreases v.len() - i,
    {
        out.push(v[i]);
        assert(v@.take(i + 1) =~= v@.take(i as int).push(v@[i as int]));
        i += 1;
    }
    assert(v@.take(v.len() as int) =~= v@);
    out
}

} // verus!
