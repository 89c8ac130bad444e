//! Telling the participants of a new round whom they play: who is told what,
//! in which order, and when to stop.

use vstd::prelude::*;
use crate::ids::UserId;
use crate::cycle::{is_round, lemma_round_has_no_fixed_point};
use crate::game::{Game, GameView};

verus! {

/// What one participant is told in private.
#[derive(Clone, Copy, Debug, PartialEq, Eq, Structural)]
pub struct Notice {
    /// Who is told.
    pub player: UserId,
    /// Whom they play as.
    pub avatar: UserId,
    /// Whether they are also told that they host the round, and that what
    /// they write in private is relayed to the group.
    pub host: bool,
}

/// How the attempt to tell one participant ended.
#[derive(Clone, Copy, Debug, PartialEq, Eq, Structural)]
pub enum Delivery {
    /// The participant was told.
    Delivered,
    /// The private channel could not be opened, or a message not be sent.
    Failed,
}

/// What to do next while the participants are being told.
#[derive(Clone, Copy, Debug, PartialEq, Eq, Structural)]
pub enum Step {
    /// Tell this participant.
    Send(Notice),
    /// Everybody was told.
    Finished,
    /// Stop: the last attempt failed. The participants after it stay untold
    /// and the round stays registered.
    GiveUp,
}

/// The notice for the pair at `i` of `game`.
pub open spec fn notice_at(game: GameView, i: int) -> Notice {
    Notice { player: game.pairs[i].0, avatar: game.pairs[i].1, host: game.pairs[i].0 == game.owner }
}

/// The notices for `game`: one for each pair, in the order of the pairs.
pub open spec fn notices(game: GameView) -> Seq<Notice> {
    Seq::new(game.pairs.len(), |i: int| notice_at(game, i))
}

/// The step that follows when `told` participants of `plan` have been dealt
/// with and the last attempt ended as `last`.
pub open spec fn step_after(plan: Seq<Notice>, told: int, last: Delivery) -> Step {
    if last == Delivery::Failed {
        Step::GiveUp
    } else if 0 <= told < plan.len() {
        Step::Send(plan[told])
    } else {
        Step::Finished
    }
}

/// The notices for `game`.
pub fn plan_notices(game: &Game) -> (plan: Vec<Notice>)
    ensures
        plan@ == notices(game@),
{
    let pairs = game.pairs();
    let owner = game.get_owner();
    let mut plan: Vec<Notice> = Vec::new();
    let mut i: usize = 0;
    while i < pairs.len()
        invariant
            i <= pairs.len(),
            pairs@ == game@.pairs,
            owner == game@.owner,
            plan@ == notices(game@).take(i as int),
        decreases pairs.len() - i,
    {
        let pair = pairs[i];
        plan.push(Notice { player: pair.0, avatar: pair.1, host: pair.0 == owner });
        assert(notices(game@).take(i + 1) == notices(game@).take(i as int).push(
            notice_at(game@, i as int),
        ));
        i += 1;
    }
    assert(notices(game@).take(i as int) == notices(game@));
    plan
}

/// Decides how to go on after `told` participants of `plan` have been dealt
/// with, the last of them with the outcome `last`. Before the first attempt
/// `told` is 0 and `last` is `Delivered`.
pub fn next_step(plan: &Vec<Notice>, told: usize, last: Delivery) -> (step: Step)
    ensures
        step == step_after(plan@, told as int, last),
{
    match last {
        Delivery::Failed => Step::GiveUp,
        Delivery::Delivered => if told < plan.len() {
            Step::Send(plan[told])
        } else {
            Step::Finished
        },
    }
}

/// In a round for distinct participants that is hosted by the assignee of
/// its first pair, the first notice alone goes to the host, and nobody is
/// told to play themselves.
pub proof fn lemma_host_is_told_once(game: GameView, people: Seq<UserId>)
    requires
        is_round(game.pairs, people),
        people.no_duplicates(),
        people.len() >= 2,
        game.owner == game.pairs[0].0,
    ensures
        notices(game).len() == people.len(),
        notices(game)[0].host,
        forall|i: int| 1 <= i < notices(game).len() ==> !(#[trigger] notices(game)[i]).host,
        forall|i: int|
            0 <= i < notices(game).len() ==> (#[trigger] notices(game)[i]).player != notices(
                game,
            )[i].avatar,
{
    lemma_round_has_no_fixed_point(game.pairs, people);
    assert forall|i: int| 1 <= i < notices(game).len() implies !(#[trigger] notices(
        game,
    )[i]).host by {
        assert(game.pairs[0].0 != game.pairs[i].0);
    }
    assert forall|i: int| 0 <= i < notices(game).len() implies (#[trigger] notices(game)[i]).player
        != notices(game)[i].avatar by {
        assert(game.pairs[i].0 != game.pairs[i].1);
    }
}

} // verus!
