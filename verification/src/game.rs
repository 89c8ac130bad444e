//! Rounds and the registry of the rounds that are under way.

use vstd::prelude::*;
use std::collections::HashMap;
use crate::ids::{UserId, ChannelId, Pairs};

verus! {

broadcast use vstd::std_specs::hash::group_hash_axioms;

/// What a round is, as a mathematical value.
pub struct GameView {
    /// The participant who relays messages to the whole group.
    pub owner: UserId,
    /// The conversation in which the round is played.
    pub channel: ChannelId,
    /// Who plays as whom.
    pub pairs: Seq<(UserId, UserId)>,
}

/// One round: its host, its conversation and its assignment.
#[derive(Debug, PartialEq, Eq)]
pub struct Game {
    owner: UserId,
    channel: ChannelId,
    pairs: Pairs,
}

impl View for Game {
    type V = GameView;

    closed spec fn view(&self) -> GameView {
        GameView { owner: self.owner, channel: self.channel, pairs: self.pairs@ }
    }
}

impl Clone for Game {
    fn clone(&self) -> (copy: Self)
        ensures
            copy@ == self@,
    {
        let mut pairs: Vec<(UserId, UserId)> = Vec::new();
        let mut i: usize = 0;
        while i < self.pairs.len()
            invariant
                i <= self.pairs.len(),
                pairs@ == self.pairs@.take(i as int),
            decreases self.pairs.len() - i,
        {
            pairs.push(self.pairs[i]);
            assert(self.pairs@.take(i + 1) == self.pairs@.take(i as int).push(
                self.pairs@[i as int],
            ));
            i += 1;
        }
        assert(self.pairs@.take(i as int) == self.pairs@);
        Game { owner: self.owner, channel: self.channel, pairs }
    }
}

impl Game {
    /// The host of the round.
    pub fn get_owner(&self) -> (owner: UserId)
        ensures
            owner == self@.owner,
    {
        self.owner
    }

    /// The assignment of the round, which is given away.
    pub fn get_pairs(self) -> (pairs: Pairs)
        ensures
            pairs@ == self@.pairs,
    {
        self.pairs
    }

    /// The assignment of the round, which stays with the round.
    pub fn pairs(&self) -> (pairs: &Pairs)
        ensures
            pairs@ == self@.pairs,
    {
        &self.pairs
    }

    /// The conversation of the round.
    pub fn get_channel(&self) -> (channel: ChannelId)
        ensures
            channel == self@.channel,
    {
        self.channel
    }
}

/// A round with the given host, conversation and assignment.
pub fn new_game(owner: UserId, channel: ChannelId, pairs: Pairs) -> (game: Game)
    ensures
        game@ == (GameView { owner, channel, pairs: pairs@ }),
{
    Game { owner, channel, pairs }
}

/// The rounds that are under way, as a mathematical value: a map from each
/// host to the round that they host.
pub type Rounds = Map<UserId, GameView>;

/// Every round is filed under its own host, and no two rounds are played in
/// the same conversation.
pub open spec fn consistent(rounds: Rounds) -> bool {
    &&& forall|host: UserId| rounds.contains_key(host) ==> (#[trigger] rounds[host]).owner == host
    &&& forall|a: UserId, b: UserId|
        rounds.contains_key(a) && rounds.contains_key(b) && (#[trigger] rounds[a]).channel == (
        #[trigger] rounds[b]).channel ==> a == b
}

/// Some round of `rounds` is played in `channel`.
pub open spec fn plays_in(rounds: Rounds, channel: ChannelId) -> bool {
    exists|host: UserId| rounds.contains_key(host) && (#[trigger] rounds[host]).channel == channel
}

/// The round of `rounds` that is played in `channel`, if there is one.
pub open spec fn round_in(rounds: Rounds, channel: ChannelId) -> Option<GameView> {
    if plays_in(rounds, channel) {
        Some(
            rounds[choose|host: UserId|
                rounds.contains_key(host) && (#[trigger] rounds[host]).channel == channel],
        )
    } else {
        None
    }
}

/// The round of `rounds` that `host` hosts, if there is one.
pub open spec fn round_of(rounds: Rounds, host: UserId) -> Option<GameView> {
    if rounds.contains_key(host) {
        Some(rounds[host])
    } else {
        None
    }
}

/// `rounds` without the rounds that are played in `channel`.
pub open spec fn without_channel(rounds: Rounds, channel: ChannelId) -> Rounds {
    Map::new(
        |host: UserId| rounds.contains_key(host) && rounds[host].channel != channel,
        |host: UserId| rounds[host],
    )
}

/// `rounds` after `game` has taken the place of the round in its
/// conversation and of the round of its host.
pub open spec fn after_put(rounds: Rounds, game: GameView) -> Rounds {
    without_channel(rounds, game.channel).insert(game.owner, game)
}

/// The registry of the rounds that are under way. It holds at most one round
/// for each host and at most one for each conversation.
pub struct Games {
    store: HashMap<u64, Game>,
}

impl View for Games {
    type V = Rounds;

    closed spec fn view(&self) -> Rounds {
        rounds_of(self.store@)
    }
}

/// The rounds that a store keyed by the hosts' numbers holds.
spec fn rounds_of(store: Map<u64, Game>) -> Rounds {
    Map::new(|host: UserId| store.contains_key(host.0), |host: UserId| store[host.0]@)
}

impl Games {
    #[verifier::type_invariant]
    closed spec fn well_formed(self) -> bool {
        consistent(self@)
    }

    /// A registry without rounds.
    pub fn new() -> (games: Games)
        ensures
            games@ == Map::<UserId, GameView>::empty(),
    {
        let games = Games { store: HashMap::new() };
        assert(games@ =~= Map::<UserId, GameView>::empty());
        games
    }

    /// Recalls that the registry is consistent. Nothing happens when it runs.
    pub fn recall_consistency(&self)
        ensures
            consistent(self@),
    {
        proof {
            use_type_invariant(self);
        }
    }

    /// The round that `id` hosts, if there is one.
    pub fn get_by_initiator(&self, id: UserId) -> (found: Option<Game>)
        ensures
            consistent(self@),
            match found {
                Some(game) => Some(game@) == round_of(self@, id),
                None => round_of(self@, id) is None,
            },
    {
        proof {
            use_type_invariant(self);
        }
        match self.store.get(&id.0) {
            Some(game) => Some(game.clone()),
            None => None,
        }
    }

    /// The round that is played in `id`, if there is one. Every round is
    /// looked at in turn.
    pub fn get_by_conversation(&self, id: ChannelId) -> (found: Option<Game>)
        ensures
            consistent(self@),
            match found {
                Some(game) => Some(game@) == round_in(self@, id),
                None => round_in(self@, id) is None,
            },
    {
        proof {
            use_type_invariant(self);
        }
        for entry in it: self.store.iter()
            invariant
                consistent(self@),
                forall|k: int| 0 <= k < it.index() ==> (*it.seq()[k].1)@.channel != id,
        {
            if entry.1.get_channel() == id {
                proof {
                    let host = UserId(*entry.0);
                    assert(self.store@.contains_key(*entry.0));
                    assert(self@.contains_key(host) && self@[host] == entry.1@);
                    assert(plays_in(self@, id));
                }
                return Some(entry.1.clone());
            }
        }
        None
    }

    /// Files `game` under its host. The round that was played in the same
    /// conversation is discarded first, whoever hosted it, and so is the
    /// round that the host of `game` hosted before.
    pub fn put(&mut self, game: Game)
        ensures
            final(self)@ == after_put(old(self)@, game@),
            consistent(final(self)@),
    {
        proof {
            use_type_invariant(&*self);
        }
        let stale = self.get_by_conversation(game.get_channel());
        let ghost filed = game@;
        let mut store: HashMap<u64, Game> = HashMap::new();
        std::mem::swap(&mut self.store, &mut store);
        if let Some(previous) = stale {
            store.remove(&previous.get_owner().0);
        }
        store.insert(game.get_owner().0, game);
        proof {
            lemma_put_keeps_consistent(old(self)@, filed);
            assert(rounds_of(store@) =~= after_put(old(self)@, filed));
        }
        self.store = store;
    }

    /// Discards the round that the host of `game` hosts, and hands it back.
    /// Without such a round nothing changes.
    pub fn remove(&mut self, game: &Game) -> (removed: Option<Game>)
        ensures
            final(self)@ == old(self)@.remove(game@.owner),
            !old(self)@.contains_key(game@.owner) ==> final(self)@ == old(self)@,
            consistent(final(self)@),
            match removed {
                Some(round) => Some(round@) == round_of(old(self)@, game@.owner),
                None => round_of(old(self)@, game@.owner) is None,
            },
    {
        proof {
            use_type_invariant(&*self);
        }
        let mut store: HashMap<u64, Game> = HashMap::new();
        std::mem::swap(&mut self.store, &mut store);
        let removed = store.remove(&game.get_owner().0);
        proof {
            assert(rounds_of(store@) =~= old(self)@.remove(game@.owner));
        }
        self.store = store;
        removed
    }
}

impl Default for Games {
    fn default() -> (games: Self)
        ensures
            games@ == Map::<UserId, GameView>::empty(),
    {
        Games::new()
    }
}

/// Putting a round into a consistent registry leaves it consistent, with
/// the round filed under its host and found in its conversation.
pub proof fn lemma_put_keeps_consistent(rounds: Rounds, game: GameView)
    requires
        consistent(rounds),
    ensures
        consistent(after_put(rounds, game)),
        round_of(after_put(rounds, game), game.owner) == Some(game),
        round_in(after_put(rounds, game), game.channel) == Some(game),
{
    let after = after_put(rounds, game);
    assert(after.contains_key(game.owner) && after[game.owner].channel == game.channel);
}

/// A round that is put into the conversation of another host's round takes
/// its place: the earlier host hosts nothing any more, and the conversation
/// leads to the later round.
pub proof fn lemma_put_supersedes(rounds: Rounds, first: GameView, second: GameView)
    requires
        consistent(rounds),
        first.channel == second.channel,
        first.owner != second.owner,
    ensures
        round_of(after_put(after_put(rounds, first), second), first.owner) is None,
        round_in(after_put(after_put(rounds, first), second), first.channel) == Some(second),
{
    let between = after_put(rounds, first);
    lemma_put_keeps_consistent(rounds, first);
    lemma_put_keeps_consistent(between, second);
    assert(between.contains_key(first.owner) && between[first.owner].channel == second.channel);
}

/// Discarding the round of a host who hosts none changes nothing.
pub proof fn lemma_remove_absent(rounds: Rounds, host: UserId)
    requires
        !rounds.contains_key(host),
    ensures
        round_of(rounds, host) is None,
        rounds.remove(host) == rounds,
{
    assert(rounds.remove(host) =~= rounds);
}

} // verus!
