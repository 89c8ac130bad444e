//! A systematic search for a cycle that stays clear of the excluded pairs.
//! It tries every order of the participants, one position at a time, and
//! gives up a beginning as soon as it repeats a participant or contains an
//! excluded pair. It therefore finds a cycle whenever one exists.

use vstd::prelude::*;
use vstd::set_lib::lemma_subset_equality;
use crate::ids::{UserId, Players, Pairs};
use crate::cycle::{cycle_pairs, assignees, is_arrangement, is_round, avoids, contains_pair,
    pair_up, lemma_cycle_is_round, lemma_arrangement_keeps_distinctness};

verus! {

/// `order` arranges `people` so that the cycle through it avoids `avoid`.
pub open spec fn admissible(
    order: Seq<UserId>,
    people: Seq<UserId>,
    avoid: Seq<(UserId, UserId)>,
) -> bool {
    &&& is_arrangement(order, people)
    &&& avoids(cycle_pairs(order), avoid)
}

/// Some cycle over `people` avoids `avoid`.
pub open spec fn feasible(people: Seq<UserId>, avoid: Seq<(UserId, UserId)>) -> bool {
    exists|order: Seq<UserId>| admissible(order, people, avoid)
}

/// No admissible order begins with `prefix`.
pub open spec fn dead_end(
    prefix: Seq<UserId>,
    people: Seq<UserId>,
    avoid: Seq<(UserId, UserId)>,
) -> bool {
    forall|order: Seq<UserId>| #[trigger]
        admissible(order, people, avoid) ==> !prefix.is_prefix_of(order)
}

/// The pair of the element at `k` and the one after it.
pub open spec fn link(path: Seq<UserId>, k: int) -> (UserId, UserId) {
    (path[k], path[k + 1])
}

/// No two neighbours in `path` form an excluded pair.
pub open spec fn linked(path: Seq<UserId>, avoid: Seq<(UserId, UserId)>) -> bool {
    forall|k: int| 0 <= k < path.len() - 1 ==> !avoid.contains(#[trigger] link(path, k))
}

/// `path` is a beginning that the search may still complete: it names
/// participants only, none twice, and no excluded pair.
pub open spec fn promising(
    path: Seq<UserId>,
    people: Seq<UserId>,
    avoid: Seq<(UserId, UserId)>,
) -> bool {
    &&& path.len() <= people.len()
    &&& path.no_duplicates()
    &&& forall|i: int| 0 <= i < path.len() ==> people.contains(#[trigger] path[i])
    &&& linked(path, avoid)
}

/// Without exclusions every list of participants is feasible as it stands.
pub proof fn lemma_feasible_without_exclusions(people: Seq<UserId>, avoid: Seq<(UserId, UserId)>)
    requires
        avoid.len() == 0,
    ensures
        feasible(people, avoid),
{
    assert(admissible(people, people, avoid));
}

/// A round for at least three distinct participants can always be followed
/// by another one for the same participants: the cycle walked backwards
/// repeats none of its pairs.
pub proof fn lemma_round_can_be_followed(previous: Seq<(UserId, UserId)>, people: Seq<UserId>)
    requires
        is_round(previous, people),
        people.no_duplicates(),
        people.len() >= 3,
    ensures
        feasible(people, previous),
{
    let order = assignees(previous);
    let back = order.reverse();
    let n = order.len() as int;
    lemma_arrangement_keeps_distinctness(order, people);
    order.lemma_reverse_to_multiset();
    assert forall|i: int| 0 <= i < cycle_pairs(back).len() implies !previous.contains(
        #[trigger] cycle_pairs(back)[i],
    ) by {
        let at = n - 1 - i;
        let before = if at == 0 { n - 1 } else { at - 1 };
        assert(cycle_pairs(back)[i] == (order[at], order[before]));
        if previous.contains((order[at], order[before])) {
            let j = choose|j: int|
                0 <= j < previous.len() && previous[j] == (order[at], order[before]);
            let after = if j + 1 == n { 0 } else { j + 1 };
            assert(previous[j] == cycle_pairs(order)[j]);
            assert(order[j] == order[at]);
            assert(order[after] == order[before]);
            assert(j == at);
            assert(after == before);
            assert(false);
        }
    }
    assert(admissible(back, people, previous));
}

/// A list without repetitions that names only participants, and as many as
/// there are, arranges them.
proof fn lemma_full_path_is_arrangement(path: Seq<UserId>, people: Seq<UserId>)
    requires
        path.no_duplicates(),
        people.no_duplicates(),
        path.len() == people.len(),
        forall|i: int| 0 <= i < path.len() ==> people.contains(#[trigger] path[i]),
    ensures
        is_arrangement(path, people),
{
    path.unique_seq_to_set();
    people.unique_seq_to_set();
    vstd::seq_lib::seq_to_set_is_finite(path);
    vstd::seq_lib::seq_to_set_is_finite(people);
    assert(path.to_set().subset_of(people.to_set())) by {
        assert forall|x: UserId| path.to_set().contains(x) implies people.to_set().contains(x) by {
            let i = choose|i: int| 0 <= i < path.len() && path[i] == x;
            assert(people.contains(path[i]));
        }
    }
    lemma_subset_equality(path.to_set(), people.to_set());
    path.to_multiset_ensures();
    people.to_multiset_ensures();
    path.lemma_multiset_has_no_duplicates();
    people.lemma_multiset_has_no_duplicates();
    assert forall|x: UserId| path.to_multiset().count(x) == people.to_multiset().count(x) by {
        assert(path.to_set().contains(x) == people.to_set().contains(x));
        assert(path.contains(x) == people.contains(x));
    }
    assert(path.to_multiset() =~= people.to_multiset());
}

/// A complete beginning whose last element may lead back to the first is an
/// admissible order.
proof fn lemma_closed_path_is_admissible(
    path: Seq<UserId>,
    people: Seq<UserId>,
    avoid: Seq<(UserId, UserId)>,
)
    requires
        people.no_duplicates(),
        promising(path, people, avoid),
        path.len() == people.len(),
        path.len() >= 1,
        !avoid.contains((path[path.len() - 1], path[0])),
    ensures
        admissible(path, people, avoid),
{
    lemma_full_path_is_arrangement(path, people);
    assert forall|i: int| 0 <= i < cycle_pairs(path).len() implies !avoid.contains(
        #[trigger] cycle_pairs(path)[i],
    ) by {
        if i + 1 == path.len() {
        } else {
            assert(cycle_pairs(path)[i] == link(path, i));
        }
    }
}

/// A complete beginning whose last element may not lead back to the first
/// is a dead end.
proof fn lemma_open_path_is_dead_end(
    path: Seq<UserId>,
    people: Seq<UserId>,
    avoid: Seq<(UserId, UserId)>,
)
    requires
        path.len() == people.len(),
        path.len() >= 1,
        avoid.contains((path[path.len() - 1], path[0])),
    ensures
        dead_end(path, people, avoid),
{
    assert forall|order: Seq<UserId>| #[trigger]
        admissible(order, people, avoid) implies !path.is_prefix_of(order) by {
        if path.is_prefix_of(order) {
            lemma_arrangement_keeps_distinctness(order, people);
            assert(order =~= path);
            let last = path.len() - 1;
            assert(cycle_pairs(order)[last] == (path[last], path[0]));
        }
    }
}

/// A beginning cannot be continued with a participant it already names.
proof fn lemma_repeat_is_dead_end(
    path: Seq<UserId>,
    next: UserId,
    people: Seq<UserId>,
    avoid: Seq<(UserId, UserId)>,
)
    requires
        people.no_duplicates(),
        path.contains(next),
    ensures
        dead_end(path.push(next), people, avoid),
{
    let longer = path.push(next);
    assert forall|order: Seq<UserId>| #[trigger]
        admissible(order, people, avoid) implies !longer.is_prefix_of(order) by {
        if longer.is_prefix_of(order) {
            lemma_arrangement_keeps_distinctness(order, people);
            let i = choose|i: int| 0 <= i < path.len() && path[i] == next;
            assert(order.subrange(0, longer.len() as int)[i] == longer[i]);
            let at = path.len() as int;
            assert(order.subrange(0, longer.len() as int)[at] == longer[at]);
            assert(order[i] == next && order[path.len() as int] == next);
        }
    }
}

/// A beginning cannot be continued with a participant that its last element
/// must avoid.
proof fn lemma_excluded_step_is_dead_end(
    path: Seq<UserId>,
    next: UserId,
    people: Seq<UserId>,
    avoid: Seq<(UserId, UserId)>,
)
    requires
        path.len() >= 1,
        avoid.contains((path[path.len() - 1], next)),
    ensures
        dead_end(path.push(next), people, avoid),
{
    let longer = path.push(next);
    let last = path.len() - 1;
    assert forall|order: Seq<UserId>| #[trigger]
        admissible(order, people, avoid) implies !longer.is_prefix_of(order) by {
        if longer.is_prefix_of(order) {
            assert(order.subrange(0, longer.len() as int)[last] == longer[last]);
            assert(order.subrange(0, longer.len() as int)[last + 1] == longer[last + 1]);
            assert(cycle_pairs(order)[last] == (path[last], next));
        }
    }
}

/// A beginning none of whose continuations by one participant leads
/// anywhere is itself a dead end.
proof fn lemma_all_steps_dead(
    path: Seq<UserId>,
    people: Seq<UserId>,
    avoid: Seq<(UserId, UserId)>,
)
    requires
        path.len() < people.len(),
        forall|j: int|
            0 <= j < people.len() ==> #[trigger] dead_end(path.push(people[j]), people, avoid),
    ensures
        dead_end(path, people, avoid),
{
    assert forall|order: Seq<UserId>| #[trigger]
        admissible(order, people, avoid) implies !path.is_prefix_of(order) by {
        if path.is_prefix_of(order) {
            lemma_arrangement_keeps_distinctness(order, people);
            let at = path.len() as int;
            let next = order[at];
            assert(order.contains(next));
            let j = choose|j: int| 0 <= j < people.len() && people[j] == next;
            assert(dead_end(path.push(people[j]), people, avoid));
            assert(path.push(next) =~= order.subrange(0, at + 1));
            assert(path.push(next).is_prefix_of(order));
        }
    }
}

/// Continuing a promising beginning with a new participant that its last
/// element need not avoid keeps it promising.
proof fn lemma_step_keeps_promising(
    path: Seq<UserId>,
    next: UserId,
    people: Seq<UserId>,
    avoid: Seq<(UserId, UserId)>,
)
    requires
        promising(path, people, avoid),
        path.len() < people.len(),
        people.contains(next),
        !path.contains(next),
        path.len() >= 1 ==> !avoid.contains((path[path.len() - 1], next)),
    ensures
        promising(path.push(next), people, avoid),
{
    let longer = path.push(next);
    assert forall|k: int| 0 <= k < longer.len() - 1 implies !avoid.contains(
        #[trigger] link(longer, k),
    ) by {
        if k + 1 < path.len() {
            assert(link(longer, k) == link(path, k));
        }
    }
    assert forall|i: int, j: int|
        0 <= i < longer.len() && 0 <= j < longer.len() && i != j implies longer[i] != longer[j] by {
        if i < path.len() {
            assert(path.contains(path[i]));
        }
        if j < path.len() {
            assert(path.contains(path[j]));
        }
    }
}

/// Whether `player` is one of `players`.
pub fn contains_player(players: &Players, player: UserId) -> (found: bool)
    ensures
        found == players@.contains(player),
{
    let mut i: usize = 0;
    while i < players.len()
        invariant
            i <= players.len(),
            forall|k: int| 0 <= k < i ==> players@[k] != player,
        decreases players.len() - i,
    {
        if players[i] == player {
            return true;
        }
        i += 1;
    }
    false
}

/// Tries to complete `path` to an admissible order of `people`. On success
/// `path` holds that order; otherwise it is left as it was, and no
/// admissible order begins with it.
fn complete(people: &Players, avoid_pairs: &Pairs, path: &mut Players) -> (found: bool)
    requires
        people@.len() >= 1,
        people@.no_duplicates(),
        promising(old(path)@, people@, avoid_pairs@),
    ensures
        found ==> admissible(final(path)@, people@, avoid_pairs@),
        !found ==> final(path)@ == old(path)@ && dead_end(old(path)@, people@, avoid_pairs@),
    decreases people@.len() - old(path)@.len(),
{
    let n = people.len();
    let len = path.len();
    if len == n {
        let closing_excluded = contains_pair(avoid_pairs, path[n - 1], path[0]);
        proof {
            if closing_excluded {
                lemma_open_path_is_dead_end(path@, people@, avoid_pairs@);
            } else {
                lemma_closed_path_is_admissible(path@, people@, avoid_pairs@);
            }
        }
        return !closing_excluded;
    }
    let ghost base = path@;
    let mut j: usize = 0;
    while j < n
        invariant
            n == people.len(),
            len < n,
            j <= n,
            path@ == base,
            base == old(path)@,
            base.len() == len,
            people@.no_duplicates(),
            promising(base, people@, avoid_pairs@),
            forall|k: int|
                0 <= k < j ==> #[trigger] dead_end(base.push(people@[k]), people@, avoid_pairs@),
        decreases n - j,
    {
        let candidate = people[j];
        assert(people@.contains(candidate));
        if contains_player(path, candidate) {
            proof {
                lemma_repeat_is_dead_end(base, candidate, people@, avoid_pairs@);
            }
        } else if len > 0 && contains_pair(avoid_pairs, path[len - 1], candidate) {
            proof {
                lemma_excluded_step_is_dead_end(base, candidate, people@, avoid_pairs@);
            }
        } else {
            proof {
                lemma_step_keeps_promising(base, candidate, people@, avoid_pairs@);
            }
            path.push(candidate);
            if complete(people, avoid_pairs, path) {
                return true;
            }
            path.pop();
            assert(path@ == base);
        }
        j += 1;
    }
    proof {
        lemma_all_steps_dead(base, people@, avoid_pairs@);
    }
    false
}

/// Finds a round for `people` that avoids `avoid_pairs`, if there is one.
/// The search is exhaustive: it may take long on many participants, and it
/// answers `None` only when no cycle over them avoids the pairs.
pub fn find_cycle(people: &Players, avoid_pairs: &Pairs) -> (outcome: Option<Pairs>)
    requires
        people@.no_duplicates(),
    ensures
        outcome is Some <==> feasible(people@, avoid_pairs@),
        outcome matches Some(pairs) ==> is_round(pairs@, people@) && avoids(pairs@, avoid_pairs@),
{
    let mut path: Vec<UserId> = Vec::new();
    if people.len() == 0 {
        proof {
            assert(people@ =~= path@);
            assert(admissible(path@, people@, avoid_pairs@));
            lemma_cycle_is_round(path@, people@);
        }
        return pair_up(&path, avoid_pairs);
    }
    if complete(people, avoid_pairs, &mut path) {
        proof {
            lemma_cycle_is_round(path@, people@);
        }
        pair_up(&path, avoid_pairs)
    } else {
        proof {
            assert forall|order: Seq<UserId>| !admissible(order, people@, avoid_pairs@) by {
                if admissible(order, people@, avoid_pairs@) {
                    assert(path@.is_prefix_of(order));
                }
            }
        }
        None
    }
}

} // verus!
