//! The shuffle engine: turns a list of participants into a round assignment
//! that forms one cycle and repeats no pair of the round before.

use vstd::prelude::*;
use rand::seq::SliceRandom;
use crate::ids::{UserId, Players, Pairs};
use crate::cycle::{assignees, is_arrangement, is_round, avoids, no_self_pair, pair_up,
    lemma_cycle_is_round, lemma_arrangement_keeps_distinctness, lemma_round_has_no_fixed_point};
use crate::search::{admissible, feasible, find_cycle, lemma_feasible_without_exclusions,
    lemma_round_can_be_followed};

verus! {

/// Why a list of participants was not shuffled.
#[derive(Clone, Copy, Debug, PartialEq, Eq, Structural)]
pub enum ShuffleError {
    /// Fewer than [`MIN_PLAYERS`] participants were named.
    TooFewPeople,
    /// A participant was named more than once.
    DuplicatesDetected,
    /// There are more pairs to avoid than participants.
    TooManyExclusions,
    /// No cycle over the participants stays clear of the pairs to avoid.
    ExclusionsUnsatisfiable,
}

/// The least number of participants of a round. With two, each could only
/// play as the other, and the next round could not differ.
pub const MIN_PLAYERS: usize = 3;

/// How many random orders are tried before the search for an admissible
/// cycle becomes systematic.
pub const RANDOM_ATTEMPTS: u32 = 64;

/// `v` is in ascending order of the participants' numbers.
pub open spec fn ascending(v: Seq<UserId>) -> bool {
    forall|i: int, j: int| 0 <= i <= j < v.len() ==> v[i].0 <= v[j].0
}

/// Sorts `v` by the participants' numbers with `sort_by_key` of the standard
/// library's slices. Assumed, as its documentation says: afterwards the
/// slice holds the elements it held before, in ascending order of the key.
#[verifier::external_body]
fn sort_by_number(v: &mut Vec<UserId>)
    ensures
        is_arrangement(final(v)@, old(v)@),
        ascending(final(v)@),
{
    v.sort_by_key(|p| p.0);
}

/// Shuffles `v` in place with `rand::seq::SliceRandom::shuffle`, drawing from
/// `rand::thread_rng()`. Assumed of every outcome: the slice holds the
/// elements it held before, each as often, since the shuffle only swaps
/// elements. Which order comes out is left open. The generator is seeded from
/// the operating system on first use in a thread, and panics only if that
/// source cannot be read.
#[verifier::external_body]
fn shuffle_in_place(v: &mut Vec<UserId>)
    ensures
        is_arrangement(final(v)@, old(v)@),
{
    v.shuffle(&mut rand::thread_rng());
}

/// A copy of `people`.
fn copy_players(people: &Players) -> (copy: Players)
    ensures
        copy@ == people@,
{
    let mut copy: Vec<UserId> = Vec::new();
    let mut i: usize = 0;
    while i < people.len()
        invariant
            i <= people.len(),
            copy@ == people@.take(i as int),
        decreases people.len() - i,
    {
        copy.push(people[i]);
        assert(people@.take(i + 1) == people@.take(i as int).push(people@[i as int]));
        i += 1;
    }
    copy
}

/// Whether some participant occurs more than once in `people`. The list is
/// copied and sorted, so that equal entries become neighbours.
pub fn has_duplicates(people: &Players) -> (found: bool)
    ensures
        found == !people@.no_duplicates(),
{
    let mut sorted = copy_players(people);
    sort_by_number(&mut sorted);
    proof {
        lemma_arrangement_keeps_distinctness(sorted@, people@);
    }
    let mut i: usize = 1;
    while i < sorted.len()
        invariant
            1 <= i,
            ascending(sorted@),
            sorted@.no_duplicates() <==> people@.no_duplicates(),
            forall|k: int|
                1 <= k < i && k < sorted.len() ==> sorted@[k - 1].0 < (#[trigger] sorted@[k]).0,
        decreases sorted.len() - i,
    {
        if sorted[i - 1] == sorted[i] {
            return true;
        }
        i += 1;
    }
    proof {
        lemma_strictly_ascending(sorted@);
    }
    false
}

/// A list whose neighbours all ascend strictly holds nobody twice.
proof fn lemma_strictly_ascending(v: Seq<UserId>)
    requires
        forall|k: int| 1 <= k < v.len() ==> v[k - 1].0 < (#[trigger] v[k]).0,
    ensures
        v.no_duplicates(),
{
    assert forall|i: int, j: int| 0 <= i < j < v.len() implies v[i].0 < v[j].0 by {
        lemma_strict_step(v, i, j);
    }
}

/// In a list whose neighbours all ascend strictly, an earlier entry is below
/// a later one.
proof fn lemma_strict_step(v: Seq<UserId>, i: int, j: int)
    requires
        forall|k: int| 1 <= k < v.len() ==> v[k - 1].0 < (#[trigger] v[k]).0,
        0 <= i < j < v.len(),
    ensures
        v[i].0 < v[j].0,
    decreases j - i,
{
    if i + 1 < j {
        lemma_strict_step(v, i, j - 1);
    }
}

/// The reason for which `shuffle_people` refuses `people` and `avoid`, if it
/// does. The conditions are examined in this order, and the first that
/// fails decides.
pub open spec fn rejection(people: Seq<UserId>, avoid: Seq<(UserId, UserId)>) -> Option<
    ShuffleError,
> {
    if people.len() < MIN_PLAYERS {
        Some(ShuffleError::TooFewPeople)
    } else if !people.no_duplicates() {
        Some(ShuffleError::DuplicatesDetected)
    } else if avoid.len() > people.len() {
        Some(ShuffleError::TooManyExclusions)
    } else if !feasible(people, avoid) {
        Some(ShuffleError::ExclusionsUnsatisfiable)
    } else {
        None
    }
}

/// Assigns every one of `people` another one to play as, so that the
/// assignments form a single cycle through all of them and none of them is
/// one of `avoid_pairs`.
///
/// Random orders are tried first. If none of [`RANDOM_ATTEMPTS`] of them
/// avoids the excluded pairs, the orders are searched systematically, so the
/// answer is an assignment whenever one exists. One always exists when
/// nothing is to be avoided, and when the pairs to avoid are a round of the
/// same participants.
pub fn shuffle_people(people: &Players, avoid_pairs: &Pairs) -> (result: Result<
    Pairs,
    ShuffleError,
>)
    ensures
        match result {
            Ok(pairs) => {
                &&& rejection(people@, avoid_pairs@) is None
                &&& is_round(pairs@, people@)
                &&& no_self_pair(pairs@)
                &&& avoids(pairs@, avoid_pairs@)
            },
            Err(e) => rejection(people@, avoid_pairs@) == Some(e),
        },
        people@.len() < MIN_PLAYERS ==> result == Err::<Pairs, ShuffleError>(
            ShuffleError::TooFewPeople,
        ),
        people@.len() >= MIN_PLAYERS && !people@.no_duplicates() ==> result == Err::<
            Pairs,
            ShuffleError,
        >(ShuffleError::DuplicatesDetected),
        people@.len() >= MIN_PLAYERS && people@.no_duplicates() && avoid_pairs@.len() == 0
            ==> result is Ok,
        people@.len() >= MIN_PLAYERS && people@.no_duplicates() && is_round(
            avoid_pairs@,
            people@,
        ) ==> result is Ok,
{
    if people.len() < MIN_PLAYERS {
        return Err(ShuffleError::TooFewPeople);
    }
    if has_duplicates(people) {
        return Err(ShuffleError::DuplicatesDetected);
    }
    proof {
        if is_round(avoid_pairs@, people@) {
            lemma_arrangement_keeps_distinctness(assignees(avoid_pairs@), people@);
            lemma_round_can_be_followed(avoid_pairs@, people@);
        }
        if avoid_pairs@.len() == 0 {
            lemma_feasible_without_exclusions(people@, avoid_pairs@);
        }
    }
    if avoid_pairs.len() > people.len() {
        return Err(ShuffleError::TooManyExclusions);
    }
    let mut players = copy_players(people);
    let mut attempt: u32 = 0;
    while attempt < RANDOM_ATTEMPTS
        invariant
            is_arrangement(players@, people@),
            people@.no_duplicates(),
            people@.len() >= MIN_PLAYERS,
            avoid_pairs@.len() <= people@.len(),
        decreases RANDOM_ATTEMPTS - attempt,
    {
        shuffle_in_place(&mut players);
        match pair_up(&players, avoid_pairs) {
            Some(pairs) => {
                proof {
                    assert(admissible(players@, people@, avoid_pairs@));
                    lemma_cycle_is_round(players@, people@);
                    lemma_round_has_no_fixed_point(pairs@, people@);
                }
                return Ok(pairs);
            },
            None => {},
        }
        attempt += 1;
    }
    match find_cycle(people, avoid_pairs) {
        Some(pairs) => {
            proof {
                lemma_round_has_no_fixed_point(pairs@, people@);
            }
            Ok(pairs)
        },
        None => Err(ShuffleError::ExclusionsUnsatisfiable),
    }
}

} // verus!
