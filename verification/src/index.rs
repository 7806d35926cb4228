//! The constraint index: for each event, the constraints that list it, in the order of the
//! master list.

use vstd::prelude::*;
use crate::model::{
    events_of, names_of, rules_of, Constraint, Event, EventSpec, Rule, ScheduleError,
};
use crate::names::name_eq;

verus! {

/// The rules among `rules` that list `name`, in the order of `rules`.
pub open spec fn rules_listing(rules: Seq<Rule>, name: Seq<char>) -> Seq<Rule> {
    rules.filter(|r: Rule| r.names.contains(name))
}

/// Whether every name listed by any of the rules is one of `names`.
pub open spec fn all_known(rules: Seq<Rule>, names: Seq<Seq<char>>) -> bool {
    forall|i: int, j: int|
        0 <= i < rules.len() && 0 <= j < rules[i].names.len() ==> names.contains(
            #[trigger] rules[i].names[j],
        )
}

/// The index of `rules` over `names`: one event per name, in the order of `names`, each with
/// the rules that list its name.
pub open spec fn constraint_index(rules: Seq<Rule>, names: Seq<Seq<char>>) -> Seq<EventSpec> {
    Seq::new(
        names.len(),
        |k: int| EventSpec { name: names[k], rules: rules_listing(rules, names[k]) },
    )
}

/// What building the index of `rules` over `names` returns: the index where every listed
/// name is known, and `UnknownEventReference` where one is not.
pub open spec fn index_outcome(rules: Seq<Rule>, names: Seq<Seq<char>>) -> Result<
    Seq<EventSpec>,
    ScheduleError,
> {
    if all_known(rules, names) {
        Ok(constraint_index(rules, names))
    } else {
        Err(ScheduleError::UnknownEventReference)
    }
}

/// The model of what [`eval_constraints`] returns.
pub open spec fn index_result_of(res: Result<Vec<Event>, ScheduleError>) -> Result<
    Seq<EventSpec>,
    ScheduleError,
> {
    match res {
        Ok(events) => Ok(events_of(events@)),
        Err(e) => Err(e),
    }
}

/// If `s[k]` is the first occurrence of `x` in `s`, then `k` is its first index.
pub proof fn lemma_first_index<A>(s: Seq<A>, x: A, k: int)
    requires
        0 <= k < s.len(),
        s[k] == x,
        forall|j: int| 0 <= j < k ==> s[j] != x,
    ensures
        s.index_of_first(x) == Some(k),
{
    s.index_of_first_ensures(x);
    assert(s.contains(x));
}

/// The position of the first name in `list` that equals `name`, if there is one.
pub fn find_name(list: &[&str], name: &str) -> (r: Option<usize>)
    ensures
        match r {
            Some(k) => names_of(list@).index_of_first(name@) == Some(k as int) && k < list.len(),
            None => names_of(list@).index_of_first(name@) is None,
        },
{
    let ghost s = names_of(list@);
    let mut i: usize = 0;
    while i < list.len()
        invariant
            i <= list.len(),
            s == names_of(list@),
            forall|j: int| 0 <= j < i ==> s[j] != name@,
        decreases list.len() - i,
    {
        if name_eq(list[i], name) {
            proof {
                lemma_first_index(s, name@, i as int);
            }
            return Some(i);
        }
        i += 1;
    }
    proof {
        s.index_of_first_ensures(name@);
    }
    None
}

/// Whether every name that the constraints list is one of `event_names`.
fn names_known<'a>(constraints: &[Constraint<'a>], event_names: &[&'a str]) -> (b: bool)
    ensures
        b == all_known(rules_of(constraints@), names_of(event_names@)),
{
    let ghost rules = rules_of(constraints@);
    let ghost names = names_of(event_names@);
    let mut i: usize = 0;
    while i < constraints.len()
        invariant
            i <= constraints.len(),
            rules == rules_of(constraints@),
            names == names_of(event_names@),
            forall|a: int, b: int|
                0 <= a < i && 0 <= b < rules[a].names.len() ==> names.contains(
                    #[trigger] rules[a].names[b],
                ),
        decreases constraints.len() - i,
    {
        let listed = constraints[i].names();
        let mut j: usize = 0;
        while j < listed.len()
            invariant
                i < constraints.len(),
                j <= listed.len(),
                rules == rules_of(constraints@),
                names == names_of(event_names@),
                names_of(listed@) == rules[i as int].names,
                forall|b: int| 0 <= b < j ==> names.contains(#[trigger] rules[i as int].names[b]),
            decreases listed.len() - j,
        {
            let found = find_name(event_names, listed[j]);
            proof {
                names.index_of_first_ensures(listed[j as int]@);
                assert(rules[i as int].names[j as int] == listed[j as int]@);
            }
            if found.is_none() {
                return false;
            }
            j += 1;
        }
        i += 1;
    }
    true
}

/// Builds the constraint index: for each name in `event_names`, in that order, an event
/// holding the constraints that list the name, in the order of `constraints`.
///
/// Fails with `UnknownEventReference` exactly when some constraint lists a name that is not
/// in `event_names`.
pub fn eval_constraints<'a>(constraints: &[Constraint<'a>], event_names: &[&'a str]) -> (res:
    Result<Vec<Event<'a>>, ScheduleError>)
    ensures
        index_result_of(res) == index_outcome(rules_of(constraints@), names_of(event_names@)),
{
    if !names_known(constraints, event_names) {
        return Err(ScheduleError::UnknownEventReference);
    }
    let ghost rules = rules_of(constraints@);
    let ghost names = names_of(event_names@);
    let mut events: Vec<Event<'a>> = Vec::new();
    let mut k: usize = 0;
    while k < event_names.len()
        invariant
            k <= event_names.len(),
            rules == rules_of(constraints@),
            names == names_of(event_names@),
            events.len() == k,
            forall|e: int| 0 <= e < k ==> events[e]@ == constraint_index(rules, names)[e],
        decreases event_names.len() - k,
    {
        let name = event_names[k];
        let mut listing: Vec<Constraint<'a>> = Vec::new();
        let mut i: usize = 0;
        proof {
            reveal(Seq::filter);
            assert(rules.take(0) =~= Seq::<Rule>::empty());
            assert(rules_of(listing@) =~= rules_listing(rules.take(0), name@));
        }
        while i < constraints.len()
            invariant
                i <= constraints.len(),
                rules == rules_of(constraints@),
                rules_of(listing@) == rules_listing(rules.take(i as int), name@),
            decreases constraints.len() - i,
        {
            let found = find_name(constraints[i].names().as_slice(), name);
            proof {
                let r = rules[i as int];
                r.names.index_of_first_ensures(name@);
                assert(rules.take(i + 1) =~= rules.take(i as int).push(r));
                rules.take(i as int).lemma_filter_push(r, |r: Rule| r.names.contains(name@));
            }
            if found.is_some() {
                let ghost before = rules_of(listing@);
                listing.push(constraints[i].duplicate());
                assert(rules_of(listing@) =~= before.push(rules[i as int]));
            }
            i += 1;
        }
        assert(rules.take(constraints.len() as int) =~= rules);
        events.push(Event { name, constraints: listing });
        k += 1;
    }
    assert(events_of(events@) =~= constraint_index(rules, names));
    Ok(events)
}

/// Building the index is repeatable: whatever two runs on the same constraints and names
/// return, both fail or both succeed, and on success both hold the same constraint lists in
/// the same order.
pub proof fn lemma_index_repeatable(
    constraints: Seq<Constraint>,
    event_names: Seq<&str>,
    first: Result<Vec<Event>, ScheduleError>,
    second: Result<Vec<Event>, ScheduleError>,
)
    requires
        index_result_of(first) == index_outcome(rules_of(constraints), names_of(event_names)),
        index_result_of(second) == index_outcome(rules_of(constraints), names_of(event_names)),
    ensures
        index_result_of(first) == index_result_of(second),
        first is Ok <==> second is Ok,
        first matches Ok(a) ==> second matches Ok(b) && events_of(a@) == events_of(b@),
{
}

/// Indexing is idempotent: the rules of an event's list that list the event are the whole
/// list, so indexing the list again by the same name changes nothing.
pub proof fn lemma_listing_idempotent(rules: Seq<Rule>, name: Seq<char>)
    ensures
        rules_listing(rules_listing(rules, name), name) == rules_listing(rules, name),
    decreases rules.len(),
{
    let pred = |r: Rule| r.names.contains(name);
    reveal(Seq::filter);
    if rules.len() > 0 {
        let front = rules.drop_last();
        lemma_listing_idempotent(front, name);
        if pred(rules.last()) {
            front.filter(pred).lemma_filter_push(rules.last(), pred);
        }
    }
}

} // verus!
