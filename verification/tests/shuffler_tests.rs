use std::collections::HashMap;

use avatar_shuffle::cycle::{contains_pair, pair_up};
use avatar_shuffle::ids::{Pairs, Players, UserId};
use avatar_shuffle::search::{contains_player, find_cycle};
use avatar_shuffle::shuffler::{has_duplicates, shuffle_people, ShuffleError, MIN_PLAYERS};
use rand::{distributions::Slice, Rng};

const MENTION_LENGTH: usize = 21; // looks like this: <@285136304914563075>
pub const ID_LENGTH: usize = MENTION_LENGTH - 3; // Remove <, @ and > from the above.

#[derive(Debug)]
enum TestResult {
    String(String),
    PairValidityError(PairValidityError),
    PairExclusionError(PairExclusionError),
}

#[test]
fn test_shuffle_people_properly_shuffles_three_people() -> Result<(), TestResult> {
    let ids = generate_user_ids(3).into();

    match shuffle_people(&ids, &vec![]) {
        Ok(shuffled) => {
            println!("Players: {:?}.", shuffled);
            match check_pairs_validity(&shuffled, 3) {
                Ok(_) => Ok(()),
                Err(error) => Err(TestResult::PairValidityError(error)),
            }
        }
        Err(error) => Err(TestResult::String(format!("Got an error ({error:?})."))),
    }
}

#[test]
fn test_shuffle_people_properly_shuffles_three_people_with_exclusion() -> Result<(), TestResult> {
    let ids: Players = generate_user_ids(3).into();
    let exclusions: Pairs = vec![(ids[0], ids[1]), (ids[1], ids[2]), (ids[2], ids[0])];

    match shuffle_people(&ids, &exclusions) {
        Ok(shuffled) => {
            println!("Players: {shuffled:?}.");
            println!("Exclusions: {exclusions:?}.");
            match check_pairs_validity(&shuffled, 3) {
                Ok(_) => match check_exclusion_validity(shuffled, exclusions) {
                    Ok(_) => Ok(()),
                    Err(error) => Err(TestResult::PairExclusionError(error)),
                },
                Err(error) => Err(TestResult::PairValidityError(error)),
            }
        }
        Err(error) => Err(TestResult::String(format!("Got an error ({error:?})."))),
    }
}

#[test]
fn test_shuffle_people_properly_shuffles_hundred_people() -> Result<(), TestResult> {
    let ids = generate_user_ids(100).into();

    match shuffle_people(&ids, &vec![]) {
        Ok(shuffled) => {
            println!("Players: {shuffled:?}.");
            match check_pairs_validity(&shuffled, 100) {
                Ok(_) => Ok(()),
                Err(error) => Err(TestResult::PairValidityError(error)),
            }
        }
        Err(error) => Err(TestResult::String(format!("Got an error ({error:?})."))),
    }
}

#[test]
fn test_shuffle_errors_on_no_people() -> Result<(), String> {
    let ids = generate_user_ids(0).into();

    match shuffle_people(&ids, &vec![]) {
        Err(ShuffleError::TooFewPeople) => Ok(()),
        Ok(shuffled) => Err(format!("Got shuffled people ({shuffled:?}).")),
        Err(error) => Err(format!("A wrong error was returned ({error:?}).")),
    }
}

#[test]
fn test_shuffle_errors_on_one_person() -> Result<(), String> {
    let ids = generate_user_ids(1).into();

    match shuffle_people(&ids, &vec![]) {
        Err(ShuffleError::TooFewPeople) => Ok(()),
        Ok(shuffled) => Err(format!("Got shuffled people ({shuffled:?}).")),
        Err(error) => Err(format!("A wrong error was returned ({error:?}).")),
    }
}

#[test]
fn test_shuffle_errors_on_two_people() -> Result<(), String> {
    let ids = generate_user_ids(2).into();

    match shuffle_people(&ids, &vec![]) {
        Err(ShuffleError::TooFewPeople) => Ok(()),
        Ok(shuffled) => Err(format!("Got shuffled people ({shuffled:?}).")),
        Err(error) => Err(format!("A wrong error was returned ({error:?}).")),
    }
}

#[test]
fn test_shuffle_errors_on_duplicate() -> Result<(), String> {
    let mut ids: Players = generate_user_ids(3).into();
    ids.push(ids[0]);

    match shuffle_people(&ids, &vec![]) {
        Err(ShuffleError::DuplicatesDetected) => Ok(()),
        Ok(shuffled) => Err(format!("Got shuffled people ({shuffled:?}).")),
        Err(error) => Err(format!("A wrong error was returned ({error:?}).")),
    }
}

// No 0 to not generate numbers with leading 0, simplifies a lot of things.
const DIGITS: [char; 9] = ['1', '2', '3', '4', '5', '6', '7', '8', '9'];

fn generate_user_ids(count: usize) -> Players {
    let mut ids = vec![];
    let distribution = Slice::new(&DIGITS).unwrap();
    let rng = &mut rand::thread_rng();
    while ids.len() != count {
        let result = rng.sample_iter(&distribution).take(ID_LENGTH).collect::<String>();
        let result = UserId(result.parse().unwrap());
        if ids.contains(&result) {
            continue;
        }
        ids.push(result);
    }
    ids
}

#[derive(Debug)]
pub enum PairValidityError {
    PlayerAssignedToThemselves,
    PlayerWasChosenTwice,
    TooFewPairs,
}

fn check_pairs_validity(
    pairs: &Pairs,
    expected_pair_count: usize,
) -> Result<(), PairValidityError> {
    if pairs.len() != expected_pair_count {
        return Err(PairValidityError::TooFewPairs);
    }

    let mut players = vec![];
    for (player, avatar) in pairs {
        if player == avatar {
            return Err(PairValidityError::PlayerAssignedToThemselves);
        }
        if players.contains(&player) {
            return Err(PairValidityError::PlayerWasChosenTwice);
        }
        players.push(player);
    }
    Ok(())
}

#[derive(Debug)]
pub enum PairExclusionError {
    PlayerWasAssignedToExcludedPlayer,
}

fn check_exclusion_validity(pairs: Pairs, exclusions: Pairs) -> Result<(), PairExclusionError> {
    let exclusions: HashMap<UserId, UserId> =
        exclusions.iter().map(|(k, v)| (k.clone(), v.clone())).collect();

    for (player, avatar) in pairs {
        if &avatar == exclusions.get(&player).unwrap() {
            return Err(PairExclusionError::PlayerWasAssignedToExcludedPlayer);
        }
    }
    Ok(())
}

fn people(numbers: &[u64]) -> Players {
    numbers.iter().map(|n| UserId(*n)).collect()
}

fn pairs(numbers: &[(u64, u64)]) -> Pairs {
    numbers.iter().map(|(a, b)| (UserId(*a), UserId(*b))).collect()
}

/// Follows the targets from the first assignee and checks that the walk
/// passes every participant once before it is back at the start.
fn assert_single_cycle(assignment: &Pairs, participants: &Players) {
    assert_eq!(assignment.len(), participants.len());
    let target_of: HashMap<UserId, UserId> = assignment.iter().cloned().collect();
    assert_eq!(target_of.len(), participants.len());
    let start = assignment[0].0;
    let mut seen = vec![start];
    let mut at = target_of[&start];
    while at != start {
        assert!(participants.contains(&at));
        assert!(!seen.contains(&at));
        seen.push(at);
        at = target_of[&at];
    }
    assert_eq!(seen.len(), participants.len());
    for i in 0..assignment.len() {
        assert_ne!(assignment[i].0, assignment[i].1);
        assert_eq!(assignment[i].1, assignment[(i + 1) % assignment.len()].0);
    }
}

#[test]
fn minimum_is_three() {
    assert_eq!(MIN_PLAYERS, 3);
}

#[test]
fn shuffle_of_five_is_a_single_cycle() {
    let participants = people(&[10, 20, 30, 40, 50]);
    for _ in 0..50 {
        let assignment = shuffle_people(&participants, &vec![]).unwrap();
        assert_single_cycle(&assignment, &participants);
    }
}

#[test]
fn shuffle_of_three_gives_one_of_the_two_cycles() {
    let participants = people(&[1, 2, 3]);
    let forward = pairs(&[(1, 2), (2, 3), (3, 1)]);
    let backward = pairs(&[(1, 3), (3, 2), (2, 1)]);
    for _ in 0..50 {
        let assignment = shuffle_people(&participants, &vec![]).unwrap();
        assert_single_cycle(&assignment, &participants);
        let all_forward = assignment.iter().all(|p| forward.contains(p));
        let all_backward = assignment.iter().all(|p| backward.contains(p));
        assert!(all_forward || all_backward);
    }
}

#[test]
fn shuffle_of_three_with_one_cycle_excluded_finds_the_other() {
    let participants = people(&[1, 2, 3]);
    let avoid = pairs(&[(1, 2), (2, 3), (3, 1)]);
    let backward = pairs(&[(1, 3), (3, 2), (2, 1)]);
    for _ in 0..50 {
        let assignment = shuffle_people(&participants, &avoid).unwrap();
        assert_single_cycle(&assignment, &participants);
        assert!(assignment.iter().all(|p| backward.contains(p)));
        assert!(assignment.iter().all(|p| !avoid.contains(p)));
    }
}

#[test]
fn shuffle_avoids_the_pairs_of_the_round_before() {
    let participants = people(&[1, 2, 3, 4, 5, 6, 7, 8]);
    let mut avoid: Pairs = vec![];
    for _ in 0..30 {
        let assignment = shuffle_people(&participants, &avoid).unwrap();
        assert_single_cycle(&assignment, &participants);
        for pair in &assignment {
            assert!(!avoid.contains(pair));
        }
        avoid = assignment;
    }
}

#[test]
fn shuffle_really_changes_the_order() {
    let participants: Players = (1..=40).map(UserId).collect();
    let mut unchanged = 0;
    for _ in 0..5 {
        let assignment = shuffle_people(&participants, &vec![]).unwrap();
        assert_single_cycle(&assignment, &participants);
        let assignees: Players = assignment.iter().map(|p| p.0).collect();
        if assignees == participants {
            unchanged += 1;
        }
    }
    assert!(unchanged < 5);
}

#[test]
fn duplicates_win_over_too_many_exclusions() {
    let participants = people(&[1, 2, 3, 1]);
    let avoid = pairs(&[(1, 2), (2, 3), (3, 1), (1, 3), (3, 2)]);
    assert_eq!(
        shuffle_people(&participants, &avoid),
        Err(ShuffleError::DuplicatesDetected)
    );
}

#[test]
fn duplicates_far_apart_are_detected() {
    let participants = people(&[9, 4, 7, 1, 8, 4]);
    assert_eq!(
        shuffle_people(&participants, &vec![]),
        Err(ShuffleError::DuplicatesDetected)
    );
}

#[test]
fn two_equal_people_are_too_few() {
    let participants = people(&[1, 1]);
    assert_eq!(shuffle_people(&participants, &vec![]), Err(ShuffleError::TooFewPeople));
}

#[test]
fn three_with_a_repetition_are_duplicates() {
    let participants = people(&[1, 1, 2]);
    assert_eq!(
        shuffle_people(&participants, &vec![]),
        Err(ShuffleError::DuplicatesDetected)
    );
}

#[test]
fn too_few_wins_over_too_many_exclusions() {
    let participants = people(&[1, 2]);
    let avoid = pairs(&[(1, 2), (2, 1), (1, 1)]);
    assert_eq!(shuffle_people(&participants, &avoid), Err(ShuffleError::TooFewPeople));
}

#[test]
fn more_exclusions_than_people_are_refused() {
    let participants = people(&[1, 2, 3]);
    let avoid = pairs(&[(1, 2), (2, 3), (3, 1), (1, 3)]);
    assert_eq!(
        shuffle_people(&participants, &avoid),
        Err(ShuffleError::TooManyExclusions)
    );
}

#[test]
fn as_many_exclusions_as_people_are_accepted() {
    let participants = people(&[1, 2, 3, 4]);
    let avoid = pairs(&[(1, 2), (2, 3), (3, 4), (4, 1)]);
    let assignment = shuffle_people(&participants, &avoid).unwrap();
    assert_single_cycle(&assignment, &participants);
    assert!(assignment.iter().all(|p| !avoid.contains(p)));
}

#[test]
fn exclusions_without_a_way_out_are_unsatisfiable() {
    // Participant 1 may play as nobody.
    let participants = people(&[1, 2, 3]);
    let avoid = pairs(&[(1, 2), (1, 3)]);
    assert_eq!(
        shuffle_people(&participants, &avoid),
        Err(ShuffleError::ExclusionsUnsatisfiable)
    );
}

#[test]
fn exclusions_that_cut_both_cycles_are_unsatisfiable() {
    let participants = people(&[1, 2, 3]);
    let avoid = pairs(&[(1, 2), (2, 1)]);
    assert_eq!(
        shuffle_people(&participants, &avoid),
        Err(ShuffleError::ExclusionsUnsatisfiable)
    );
}

#[test]
fn has_duplicates_sorts_before_it_compares() {
    assert!(has_duplicates(&people(&[3, 1, 3])));
    assert!(has_duplicates(&people(&[5, 5])));
    assert!(has_duplicates(&people(&[7, 2, 9, 4, 2, 8])));
    assert!(!has_duplicates(&people(&[3, 1, 2])));
    assert!(!has_duplicates(&people(&[u64::MAX, 0, 1])));
    assert!(!has_duplicates(&people(&[])));
    assert!(!has_duplicates(&people(&[4])));
}

#[test]
fn has_duplicates_leaves_the_list_alone() {
    let participants = people(&[3, 1, 2]);
    let before = participants.clone();
    assert!(!has_duplicates(&participants));
    assert_eq!(participants, before);
}

#[test]
fn contains_pair_is_ordered() {
    let list = pairs(&[(1, 2), (3, 4)]);
    assert!(contains_pair(&list, UserId(1), UserId(2)));
    assert!(contains_pair(&list, UserId(3), UserId(4)));
    assert!(!contains_pair(&list, UserId(2), UserId(1)));
    assert!(!contains_pair(&list, UserId(1), UserId(4)));
    assert!(!contains_pair(&vec![], UserId(1), UserId(2)));
}

#[test]
fn pair_up_closes_the_order_into_a_cycle() {
    let order = people(&[4, 2, 9]);
    assert_eq!(pair_up(&order, &vec![]), Some(pairs(&[(4, 2), (2, 9), (9, 4)])));
}

#[test]
fn pair_up_of_one_pairs_it_with_itself() {
    assert_eq!(pair_up(&people(&[4]), &vec![]), Some(pairs(&[(4, 4)])));
    assert_eq!(pair_up(&people(&[]), &vec![]), Some(pairs(&[])));
}

#[test]
fn pair_up_refuses_an_excluded_pair() {
    let order = people(&[4, 2, 9]);
    assert_eq!(pair_up(&order, &pairs(&[(2, 9)])), None);
    assert_eq!(pair_up(&order, &pairs(&[(9, 4)])), None);
    assert_eq!(pair_up(&order, &pairs(&[(4, 2)])), None);
    assert_eq!(
        pair_up(&order, &pairs(&[(2, 4), (9, 2), (4, 9)])),
        Some(pairs(&[(4, 2), (2, 9), (9, 4)]))
    );
}

#[test]
fn find_cycle_without_exclusions_keeps_the_order() {
    let participants = people(&[5, 6, 7, 8]);
    assert_eq!(
        find_cycle(&participants, &vec![]),
        Some(pairs(&[(5, 6), (6, 7), (7, 8), (8, 5)]))
    );
}

#[test]
fn find_cycle_goes_round_the_exclusions() {
    let participants = people(&[1, 2, 3]);
    let avoid = pairs(&[(1, 2), (2, 3), (3, 1)]);
    assert_eq!(
        find_cycle(&participants, &avoid),
        Some(pairs(&[(1, 3), (3, 2), (2, 1)]))
    );
}

#[test]
fn find_cycle_backtracks() {
    // 1 -> 2 is allowed, but from 2 nothing leads on to a full cycle.
    let participants = people(&[1, 2, 3, 4]);
    let avoid = pairs(&[(2, 3), (2, 4), (3, 4)]);
    let found = find_cycle(&participants, &avoid).unwrap();
    assert_single_cycle(&found, &participants);
    assert!(found.iter().all(|p| !avoid.contains(p)));
    assert!(found.contains(&(UserId(2), UserId(1))));
}

#[test]
fn find_cycle_reports_that_there_is_none() {
    let participants = people(&[1, 2, 3, 4]);
    assert_eq!(find_cycle(&participants, &pairs(&[(1, 2), (1, 3), (1, 4)])), None);
    assert_eq!(find_cycle(&participants, &pairs(&[(2, 1), (3, 1), (4, 1)])), None);
}

#[test]
fn find_cycle_for_nobody_is_empty() {
    assert_eq!(find_cycle(&people(&[]), &vec![]), Some(pairs(&[])));
    assert_eq!(find_cycle(&people(&[]), &pairs(&[(1, 2)])), Some(pairs(&[])));
}

#[test]
fn contains_player_looks_at_every_entry() {
    let list = people(&[4, 8, 15]);
    assert!(contains_player(&list, UserId(4)));
    assert!(contains_player(&list, UserId(15)));
    assert!(!contains_player(&list, UserId(16)));
    assert!(!contains_player(&people(&[]), UserId(4)));
}

#[test]
fn find_cycle_for_one_needs_the_self_pair() {
    assert_eq!(find_cycle(&people(&[1]), &vec![]), Some(pairs(&[(1, 1)])));
    assert_eq!(find_cycle(&people(&[1]), &pairs(&[(1, 1)])), None);
}
