//! The order in which the scheduler visits events: by name, lexicographically.

use vstd::prelude::*;
use crate::model::{event_names, events_of, Event, EventSpec};
use crate::names::{
    lemma_name_lt_asymmetric, lemma_name_lt_irreflexive, lemma_name_lt_total,
    lemma_name_lt_transitive, name_less, name_lt,
};

verus! {

/// Whether the event at position `i` is visited before the one at position `j`: its name
/// comes first, or the names are equal and `i` is the smaller position.
pub open spec fn visits_before(names: Seq<Seq<char>>, i: int, j: int) -> bool {
    name_lt(names[i], names[j]) || (names[i] == names[j] && i < j)
}

/// Whether `order` lists every position of `names` exactly once, each before all those that
/// are visited after it.
pub open spec fn is_name_order(names: Seq<Seq<char>>, order: Seq<usize>) -> bool {
    &&& order.len() == names.len()
    &&& forall|k: int| 0 <= k < order.len() ==> #[trigger] order[k] < names.len()
    &&& forall|i: int| 0 <= i < names.len() ==> #[trigger] order.contains(i as usize)
    &&& forall|a: int, b: int|
        0 <= a < b < order.len() ==> visits_before(
            names,
            #[trigger] order[a] as int,
            #[trigger] order[b] as int,
        )
}

/// The positions of `names` in the order of visiting. There is exactly one such order
/// ([`lemma_name_order_unique`]).
pub open spec fn name_order(names: Seq<Seq<char>>) -> Seq<usize> {
    choose|order: Seq<usize>| is_name_order(names, order)
}

/// The events in the order of visiting.
pub open spec fn in_name_order(events: Seq<EventSpec>) -> Seq<EventSpec> {
    Seq::new(events.len(), |k: int| events[name_order(event_names(events))[k] as int])
}

proof fn lemma_visits_before_asymmetric(names: Seq<Seq<char>>, i: int, j: int)
    requires
        visits_before(names, i, j),
    ensures
        !visits_before(names, j, i),
{
    if name_lt(names[i], names[j]) {
        lemma_name_lt_asymmetric(names[i], names[j]);
        lemma_name_lt_irreflexive(names[i]);
    } else {
        lemma_name_lt_irreflexive(names[i]);
    }
}

proof fn lemma_orders_agree_below(names: Seq<Seq<char>>, p: Seq<usize>, q: Seq<usize>, k: int)
    requires
        is_name_order(names, p),
        is_name_order(names, q),
        0 <= k <= names.len(),
    ensures
        forall|j: int| 0 <= j < k ==> p[j] == q[j],
    decreases k,
{
    if k > 0 {
        lemma_orders_agree_below(names, p, q, k - 1);
        let at = k - 1;
        let x = p[at];
        let y = q[at];
        if x != y {
            assert(q.contains(x as int as usize));
            let m = choose|m: int| 0 <= m < q.len() && q[m] == x;
            if m < at {
                lemma_name_lt_irreflexive(names[x as int]);
                assert(visits_before(names, p[m] as int, p[at] as int));
            }
            assert(visits_before(names, q[at] as int, q[m] as int));
            assert(p.contains(y as int as usize));
            let w = choose|w: int| 0 <= w < p.len() && p[w] == y;
            if w < at {
                lemma_name_lt_irreflexive(names[y as int]);
                assert(visits_before(names, q[w] as int, q[at] as int));
            }
            assert(visits_before(names, p[at] as int, p[w] as int));
            lemma_visits_before_asymmetric(names, x as int, y as int);
        }
    }
}

/// Two orders of visiting of the same names are the same order.
pub proof fn lemma_name_order_unique(names: Seq<Seq<char>>, p: Seq<usize>, q: Seq<usize>)
    requires
        is_name_order(names, p),
        is_name_order(names, q),
    ensures
        p == q,
{
    lemma_orders_agree_below(names, p, q, names.len() as int);
    assert(p =~= q);
}

/// Whether `order` is the order of visiting of the first `n` names.
spec fn orders_first(names: Seq<Seq<char>>, order: Seq<usize>, n: int) -> bool {
    &&& order.len() == n
    &&& forall|k: int| 0 <= k < n ==> #[trigger] order[k] < n
    &&& forall|i: int| 0 <= i < n ==> #[trigger] order.contains(i as usize)
    &&& forall|a: int, b: int|
        0 <= a < b < n ==> visits_before(
            names,
            #[trigger] order[a] as int,
            #[trigger] order[b] as int,
        )
}

/// Putting name `i` behind the names that do not come after it, and in front of the first
/// that does, extends the order of the first `i` names to that of the first `i + 1`.
proof fn lemma_insert_in_order(names: Seq<Seq<char>>, before: Seq<usize>, pos: int, i: int)
    requires
        0 <= i < names.len(),
        i < usize::MAX,
        orders_first(names, before, i),
        0 <= pos <= i,
        forall|a: int| 0 <= a < pos ==> !name_lt(names[i], names[before[a] as int]),
        pos < i ==> name_lt(names[i], names[before[pos] as int]),
    ensures
        orders_first(names, before.insert(pos, i as usize), i + 1),
{
    let after = before.insert(pos, i as usize);
    assert forall|x: int| 0 <= x < i + 1 implies #[trigger] after.contains(x as usize) by {
        if x == i {
            assert(after[pos] == i);
        } else {
            assert(before.contains(x as usize));
            let m = choose|m: int| 0 <= m < before.len() && before[m] == x as usize;
            if m < pos {
                assert(after[m] == before[m]);
            } else {
                assert(after[m + 1] == before[m]);
            }
        }
    }
    assert forall|a: int, b: int| 0 <= a < b < i + 1 implies visits_before(
        names,
        #[trigger] after[a] as int,
        #[trigger] after[b] as int,
    ) by {
        if b == pos {
            assert(after[a] == before[a]);
            lemma_name_lt_total(names[i], names[before[a] as int]);
        } else if a == pos {
            assert(after[b] == before[b - 1]);
            if b - 1 > pos {
                assert(visits_before(names, before[pos] as int, before[b - 1] as int));
                if name_lt(names[before[pos] as int], names[before[b - 1] as int]) {
                    lemma_name_lt_transitive(
                        names[i],
                        names[before[pos] as int],
                        names[before[b - 1] as int],
                    );
                }
            }
        } else {
            let a0 = if a < pos { a } else { a - 1 };
            let b0 = if b < pos { b } else { b - 1 };
            assert(after[a] == before[a0] && after[b] == before[b0]);
            assert(visits_before(names, before[a0] as int, before[b0] as int));
        }
    }
    assert forall|k: int| 0 <= k < i + 1 implies #[trigger] after[k] < i + 1 by {
        if k < pos {
            assert(after[k] == before[k]);
        } else if k > pos {
            assert(after[k] == before[k - 1]);
        }
    }
}

/// The place of name `i` among the first `i` names in their order: behind the names that do
/// not come after it, in front of the first that does.
proof fn lemma_place_in_order(names: Seq<Seq<char>>, before: Seq<usize>, i: int, from: int)
    -> (pos: int)
    requires
        0 <= from <= before.len(),
        forall|a: int| 0 <= a < from ==> !name_lt(names[i], names[before[a] as int]),
    ensures
        from <= pos <= before.len(),
        forall|a: int| 0 <= a < pos ==> !name_lt(names[i], names[before[a] as int]),
        pos < before.len() ==> name_lt(names[i], names[before[pos] as int]),
    decreases before.len() - from,
{
    if from < before.len() && !name_lt(names[i], names[before[from] as int]) {
        lemma_place_in_order(names, before, i, from + 1)
    } else {
        from
    }
}

proof fn lemma_order_of_first(names: Seq<Seq<char>>, n: int) -> (order: Seq<usize>)
    requires
        0 <= n <= names.len(),
        names.len() <= usize::MAX,
    ensures
        orders_first(names, order, n),
    decreases n,
{
    if n == 0 {
        Seq::empty()
    } else {
        let before = lemma_order_of_first(names, n - 1);
        let pos = lemma_place_in_order(names, before, n - 1, 0);
        lemma_insert_in_order(names, before, pos, n - 1);
        before.insert(pos, (n - 1) as usize)
    }
}

/// Every list of names has an order of visiting, and [`name_order`] is it.
pub proof fn lemma_name_order_exists(names: Seq<Seq<char>>)
    requires
        names.len() <= usize::MAX,
    ensures
        is_name_order(names, name_order(names)),
{
    let order = lemma_order_of_first(names, names.len() as int);
    assert(is_name_order(names, order));
}

/// The positions of the events in the order of visiting.
pub fn sort_by_name(events: &[Event]) -> (order: Vec<usize>)
    ensures
        is_name_order(event_names(events_of(events@)), order@),
        order@ == name_order(event_names(events_of(events@))),
{
    let ghost names = event_names(events_of(events@));
    let mut order: Vec<usize> = Vec::new();
    let mut i: usize = 0;
    while i < events.len()
        invariant
            i <= events.len(),
            names == event_names(events_of(events@)),
            orders_first(names, order@, i as int),
        decreases events.len() - i,
    {
        let name = events[i].name;
        let mut pos: usize = 0;
        while pos < order.len() && !name_less(name, events[order[pos]].name)
            invariant
                i < events.len(),
                names == event_names(events_of(events@)),
                name@ == names[i as int],
                orders_first(names, order@, i as int),
                pos <= order.len(),
                forall|a: int| 0 <= a < pos ==> !name_lt(names[i as int], names[order[a] as int]),
            decreases order.len() - pos,
        {
            pos += 1;
        }
        proof {
            lemma_insert_in_order(names, order@, pos as int, i as int);
        }
        order.insert(pos, i);
        i += 1;
    }
    proof {
        assert(is_name_order(names, order@));
        lemma_name_order_unique(names, order@, name_order(names));
    }
    order
}

/// Copies of the events in the order of visiting.
pub fn sorted_events<'a>(events: &[Event<'a>]) -> (sorted: Vec<Event<'a>>)
    ensures
        events_of(sorted@) == in_name_order(events_of(events@)),
        sorted.len() == events.len(),
{
    let order = sort_by_name(events);
    let mut sorted: Vec<Event<'a>> = Vec::new();
    let mut k: usize = 0;
    while k < order.len()
        invariant
            k <= order.len(),
            order.len() == events.len(),
            is_name_order(event_names(events_of(events@)), order@),
            sorted.len() == k,
            forall|j: int| 0 <= j < k ==> sorted[j]@ == events[order[j] as int]@,
        decreases order.len() - k,
    {
        assert(order[k as int] < events.len());
        sorted.push(events[order[k]].duplicate());
        k += 1;
    }
    assert(events_of(sorted@) =~= in_name_order(events_of(events@)));
    sorted
}

} // verus!
