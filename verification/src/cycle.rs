//! Round assignments as cycles: what it means for a list of pairs to be a
//! single cycle through the participants, what follows from it, and how a
//! list of participants is closed into one.

use vstd::prelude::*;
use crate::ids::{UserId, Players, Pairs};

verus! {

/// The pairs formed by giving every element of `order` its successor as
/// target, the last element wrapping back to the first.
pub open spec fn cycle_pairs(order: Seq<UserId>) -> Seq<(UserId, UserId)> {
    Seq::new(order.len(), |i: int| (order[i], order[if i + 1 == order.len() { 0 } else { i + 1 }]))
}

/// The assignees of `pairs`, in order.
pub open spec fn assignees(pairs: Seq<(UserId, UserId)>) -> Seq<UserId> {
    Seq::new(pairs.len(), |i: int| pairs[i].0)
}

/// `order` lists exactly the members of `people`, each as often as `people`
/// does.
pub open spec fn is_arrangement(order: Seq<UserId>, people: Seq<UserId>) -> bool {
    order.to_multiset() == people.to_multiset()
}

/// `pairs` is a round assignment for `people`: its assignees are the
/// participants in some order, and the target of every pair is the assignee
/// of the next one, the last pair leading back to the first.
pub open spec fn is_round(pairs: Seq<(UserId, UserId)>, people: Seq<UserId>) -> bool {
    &&& is_arrangement(assignees(pairs), people)
    &&& pairs == cycle_pairs(assignees(pairs))
}

/// No pair of `pairs` occurs in `avoid`.
pub open spec fn avoids(pairs: Seq<(UserId, UserId)>, avoid: Seq<(UserId, UserId)>) -> bool {
    forall|i: int| 0 <= i < pairs.len() ==> !avoid.contains(#[trigger] pairs[i])
}

/// Nobody is paired with themselves.
pub open spec fn no_self_pair(pairs: Seq<(UserId, UserId)>) -> bool {
    forall|i: int| 0 <= i < pairs.len() ==> (#[trigger] pairs[i]).0 != pairs[i].1
}

/// The assignees of the pairs built from `order` are `order` itself.
pub proof fn lemma_assignees_of_cycle(order: Seq<UserId>)
    ensures
        assignees(cycle_pairs(order)) == order,
{
    assert(assignees(cycle_pairs(order)) =~= order);
}

/// Closing an arrangement of `people` into a cycle gives a round for them.
pub proof fn lemma_cycle_is_round(order: Seq<UserId>, people: Seq<UserId>)
    requires
        is_arrangement(order, people),
    ensures
        is_round(cycle_pairs(order), people),
{
    lemma_assignees_of_cycle(order);
}

/// Two lists with the same members, each as often, are both free of
/// repetitions or both not.
pub proof fn lemma_arrangement_keeps_distinctness(order: Seq<UserId>, people: Seq<UserId>)
    requires
        is_arrangement(order, people),
    ensures
        order.no_duplicates() <==> people.no_duplicates(),
        order.len() == people.len(),
        forall|x: UserId| order.contains(x) <==> people.contains(x),
{
    order.to_multiset_ensures();
    people.to_multiset_ensures();
    if order.no_duplicates() {
        order.lemma_multiset_has_no_duplicates();
        people.lemma_multiset_has_no_duplicates_conv();
    }
    if people.no_duplicates() {
        people.lemma_multiset_has_no_duplicates();
        order.lemma_multiset_has_no_duplicates_conv();
    }
    assert forall|x: UserId| order.contains(x) <==> people.contains(x) by {
        assert(order.contains(x) <==> order.to_multiset().count(x) > 0);
        assert(people.contains(x) <==> people.to_multiset().count(x) > 0);
    }
}

/// In a round for at least two distinct participants nobody is paired with
/// themselves, nobody is assignee twice and nobody is target twice.
pub proof fn lemma_round_has_no_fixed_point(pairs: Seq<(UserId, UserId)>, people: Seq<UserId>)
    requires
        is_round(pairs, people),
        people.no_duplicates(),
        people.len() >= 2,
    ensures
        no_self_pair(pairs),
        pairs.len() == people.len(),
        forall|i: int, j: int| 0 <= i < j < pairs.len() ==> pairs[i].0 != pairs[j].0,
        forall|i: int, j: int| 0 <= i < j < pairs.len() ==> pairs[i].1 != pairs[j].1,
        forall|i: int|
            0 <= i < pairs.len() ==> people.contains(pairs[i].0) && people.contains(pairs[i].1),
{
    let order = assignees(pairs);
    lemma_arrangement_keeps_distinctness(order, people);
    assert(order.len() == pairs.len());
    assert forall|i: int| 0 <= i < pairs.len() implies (#[trigger] pairs[i]).0 != pairs[i].1 by {
        let next = if i + 1 == order.len() { 0 } else { i + 1 };
        assert(pairs[i] == cycle_pairs(order)[i]);
        assert(pairs[i].0 == order[i]);
        assert(pairs[i].1 == order[next]);
    }
    assert forall|i: int, j: int| 0 <= i < j < pairs.len() implies pairs[i].0 != pairs[j].0 by {
        assert(pairs[i].0 == order[i] && pairs[j].0 == order[j]);
    }
    assert forall|i: int, j: int| 0 <= i < j < pairs.len() implies pairs[i].1 != pairs[j].1 by {
        let ni = if i + 1 == order.len() { 0 } else { i + 1 };
        let nj = if j + 1 == order.len() { 0 } else { j + 1 };
        assert(pairs[i] == cycle_pairs(order)[i]);
        assert(pairs[j] == cycle_pairs(order)[j]);
        assert(pairs[i].1 == order[ni] && pairs[j].1 == order[nj]);
    }
    assert forall|i: int| 0 <= i < pairs.len() implies people.contains(pairs[i].0)
        && people.contains(pairs[i].1) by {
        let ni = if i + 1 == order.len() { 0 } else { i + 1 };
        assert(pairs[i] == cycle_pairs(order)[i]);
        assert(order.contains(order[i]));
        assert(order.contains(order[ni]));
    }
}

/// Whether `(assignee, target)` is one of `pairs`.
pub fn contains_pair(pairs: &Pairs, assignee: UserId, target: UserId) -> (found: bool)
    ensures
        found == pairs@.contains((assignee, target)),
{
    let mut i: usize = 0;
    while i < pairs.len()
        invariant
            i <= pairs.len(),
            forall|k: int| 0 <= k < i ==> pairs@[k] != (assignee, target),
        decreases pairs.len() - i,
    {
        if pairs[i].0 == assignee && pairs[i].1 == target {
            return true;
        }
        i += 1;
    }
    false
}

/// Closes `order` into a cycle, pairing every element with its successor and
/// the last with the first, unless one of those pairs is to be avoided.
pub fn pair_up(order: &Players, avoid_pairs: &Pairs) -> (outcome: Option<Pairs>)
    ensures
        outcome is Some <==> avoids(cycle_pairs(order@), avoid_pairs@),
        outcome matches Some(pairs) ==> pairs@ == cycle_pairs(order@),
{
    let n = order.len();
    let mut pairs: Vec<(UserId, UserId)> = Vec::new();
    let mut i: usize = 0;
    while i < n
        invariant
            n == order.len(),
            i <= n,
            pairs@ == cycle_pairs(order@).take(i as int),
            avoids(pairs@, avoid_pairs@),
        decreases n - i,
    {
        let next = if i + 1 == n { 0 } else { i + 1 };
        let assignee = order[i];
        let target = order[next];
        assert((assignee, target) == cycle_pairs(order@)[i as int]);
        if contains_pair(avoid_pairs, assignee, target) {
            return None;
        }
        pairs.push((assignee, target));
        assert(cycle_pairs(order@).take(i + 1) == cycle_pairs(order@).take(i as int).push(
            cycle_pairs(order@)[i as int],
        ));
        i += 1;
    }
    assert(cycle_pairs(order@).take(n as int) == cycle_pairs(order@));
    Some(pairs)
}

/// Whom `who` plays as according to `pairs`.
pub open spec fn target_of(pairs: Seq<(UserId, UserId)>, who: UserId) -> UserId {
    pairs[assignees(pairs).index_of(who)].1
}

/// Where one arrives from `start` after `steps` times passing from a
/// participant to the one they play as.
pub open spec fn walk(pairs: Seq<(UserId, UserId)>, start: UserId, steps: nat) -> UserId
    decreases steps,
{
    if steps == 0 {
        start
    } else {
        target_of(pairs, walk(pairs, start, (steps - 1) as nat))
    }
}

/// The walk from the first assignee of a round is at the assignee of pair
/// `steps` after `steps` steps, and back at the start after as many steps
/// as there are pairs.
proof fn lemma_walk_step(pairs: Seq<(UserId, UserId)>, people: Seq<UserId>, steps: nat)
    requires
        is_round(pairs, people),
        people.no_duplicates(),
        people.len() >= 1,
        steps <= pairs.len(),
    ensures
        pairs.len() == people.len(),
        steps < pairs.len() ==> walk(pairs, pairs[0].0, steps) == pairs[steps as int].0,
        steps == pairs.len() ==> walk(pairs, pairs[0].0, steps) == pairs[0].0,
    decreases steps,
{
    let order = assignees(pairs);
    lemma_arrangement_keeps_distinctness(order, people);
    assert(order.len() == pairs.len());
    if steps > 0 {
        let before = (steps - 1) as nat;
        lemma_walk_step(pairs, people, before);
        let at = pairs[before as int].0;
        assert(walk(pairs, pairs[0].0, before) == at);
        assert(order[before as int] == at);
        assert(order.contains(at));
        let found = order.index_of(at);
        assert(0 <= found < order.len() && order[found] == at);
        assert(found == before);
        assert(pairs[before as int] == cycle_pairs(order)[before as int]);
    }
}

/// A round for distinct participants is a single cycle: passing from the
/// first assignee to the one they play as, and so on, one meets every
/// participant exactly once and is then back at the start.
pub proof fn lemma_round_is_single_cycle(pairs: Seq<(UserId, UserId)>, people: Seq<UserId>)
    requires
        is_round(pairs, people),
        people.no_duplicates(),
        people.len() >= 1,
    ensures
        pairs.len() == people.len(),
        forall|k: nat| k < pairs.len() ==> people.contains(#[trigger] walk(pairs, pairs[0].0, k)),
        forall|x: UserId|
            people.contains(x) ==> exists|k: nat|
                k < pairs.len() && #[trigger] walk(pairs, pairs[0].0, k) == x,
        forall|j: nat, k: nat|
            j < k < pairs.len() ==> #[trigger] walk(pairs, pairs[0].0, j) != #[trigger] walk(
                pairs,
                pairs[0].0,
                k,
            ),
        walk(pairs, pairs[0].0, pairs.len()) == pairs[0].0,
{
    let order = assignees(pairs);
    let start = pairs[0].0;
    lemma_arrangement_keeps_distinctness(order, people);
    assert(order.len() == pairs.len());
    lemma_walk_step(pairs, people, pairs.len());
    assert forall|k: nat| k < pairs.len() implies walk(pairs, start, k) == order[k as int] by {
        lemma_walk_step(pairs, people, k);
    }
    assert forall|k: nat| k < pairs.len() implies people.contains(
        #[trigger] walk(pairs, start, k),
    ) by {
        assert(order.contains(order[k as int]));
    }
    assert forall|x: UserId| people.contains(x) implies exists|k: nat|
        k < pairs.len() && #[trigger] walk(pairs, start, k) == x by {
        assert(order.contains(x));
        let i = order.index_of(x);
        assert(0 <= i < order.len() && order[i] == x);
        assert(walk(pairs, start, i as nat) == x);
    }
    assert forall|j: nat, k: nat| j < k < pairs.len() implies #[trigger] walk(pairs, start, j)
        != #[trigger] walk(pairs, start, k) by {
        assert(order[j as int] != order[k as int]);
    }
}

} // verus!
