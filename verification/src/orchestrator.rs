//! The decisions that are taken when a message arrives: whether it asks for a
//! new round, who takes part, which pairs the new round has to avoid, and
//! where a host's private message is relayed to. Sending and receiving are
//! left to the caller.

use vstd::prelude::*;
use crate::ids::{UserId, ChannelId, Players, Pairs};
use crate::cycle::{is_round, avoids, no_self_pair, lemma_round_has_no_fixed_point};
use crate::game::{Game, GameView, Games, Rounds, new_game, consistent, round_in, round_of,
    after_put, lemma_put_keeps_consistent};
use crate::parser::{parse_shuffle_message, parse_outcome};
use crate::shuffler::{shuffle_people, rejection, ShuffleError, MIN_PLAYERS};

verus! {

/// What the transport tells of somebody who wrote or was mentioned.
#[derive(Clone, Copy, Debug, PartialEq, Eq, Structural)]
pub struct Mention {
    /// Who it is.
    pub id: UserId,
    /// Whether it is a program and not a person.
    pub bot: bool,
}

/// The people among `mentions`, in the order in which they were mentioned.
pub open spec fn humans(mentions: Seq<Mention>) -> Seq<UserId>
    decreases mentions.len(),
{
    if mentions.len() == 0 {
        Seq::empty()
    } else if mentions.last().bot {
        humans(mentions.drop_last())
    } else {
        humans(mentions.drop_last()).push(mentions.last().id)
    }
}

/// The pairs that a new round in `channel` has to avoid: those of the round
/// that is played there, if there is one.
pub open spec fn exclusions(rounds: Rounds, channel: ChannelId) -> Seq<(UserId, UserId)> {
    match round_in(rounds, channel) {
        Some(game) => game.pairs,
        None => Seq::empty(),
    }
}

/// `game` is a round that may follow on `rounds` in `channel` for `people`:
/// its assignment is a round for them that repeats no pair of the round
/// before, and its host is the assignee of its first pair.
pub open spec fn follows_on(
    game: GameView,
    rounds: Rounds,
    channel: ChannelId,
    people: Seq<UserId>,
) -> bool {
    &&& game.channel == channel
    &&& is_round(game.pairs, people)
    &&& no_self_pair(game.pairs)
    &&& avoids(game.pairs, exclusions(rounds, channel))
    &&& game.pairs.len() == people.len()
    &&& game.pairs.len() > 0
    &&& game.owner == game.pairs[0].0
}

/// Once a round has been put into the registry, the next round in its
/// conversation has to avoid exactly its pairs.
pub proof fn lemma_next_round_avoids_this_one(rounds: Rounds, game: GameView)
    requires
        consistent(rounds),
    ensures
        exclusions(after_put(rounds, game), game.channel) == game.pairs,
{
    lemma_put_keeps_consistent(rounds, game);
}

/// The people among `mentions`.
pub fn real_people(mentions: &Vec<Mention>) -> (people: Players)
    ensures
        people@ == humans(mentions@),
{
    let mut people: Vec<UserId> = Vec::new();
    let mut i: usize = 0;
    while i < mentions.len()
        invariant
            i <= mentions.len(),
            people@ == humans(mentions@.take(i as int)),
        decreases mentions.len() - i,
    {
        assert(mentions@.take(i + 1).drop_last() == mentions@.take(i as int));
        if !mentions[i].bot {
            people.push(mentions[i].id);
        }
        i += 1;
    }
    assert(mentions@.take(i as int) == mentions@);
    people
}

/// Starts a new round for `people` in `channel`. The round that is played
/// there, if any, gives the pairs to avoid, and is replaced when the shuffle
/// succeeds. When the shuffle fails its error is handed on and the registry
/// stays as it was. The shuffle succeeds whenever at least [`MIN_PLAYERS`]
/// distinct people ask for the first round in `channel`, or for a round after
/// one of their own.
pub fn request_round(games: &mut Games, channel: ChannelId, people: &Players) -> (result: Result<
    Game,
    ShuffleError,
>)
    ensures
        consistent(final(games)@),
        match result {
            Ok(game) => {
                &&& rejection(people@, exclusions(old(games)@, channel)) is None
                &&& follows_on(game@, old(games)@, channel, people@)
                &&& final(games)@ == after_put(old(games)@, game@)
            },
            Err(e) => {
                &&& rejection(people@, exclusions(old(games)@, channel)) == Some(e)
                &&& final(games)@ == old(games)@
            },
        },
        people@.len() >= MIN_PLAYERS && people@.no_duplicates() && (round_in(
            old(games)@,
            channel,
        ) matches Some(previous) ==> is_round(previous.pairs, people@)) ==> result is Ok,
{
    let avoid_pairs: Pairs = match games.get_by_conversation(channel) {
        Some(previous) => previous.get_pairs(),
        None => Vec::new(),
    };
    assert(avoid_pairs@ == exclusions(games@, channel));
    match shuffle_people(people, &avoid_pairs) {
        Err(e) => Err(e),
        Ok(pairs) => {
            proof {
                lemma_round_has_no_fixed_point(pairs@, people@);
            }
            let host = pairs[0].0;
            let game = new_game(host, channel, pairs);
            games.put(game.clone());
            Ok(game)
        },
    }
}

/// A message as the transport delivers it, cut down to what the decisions
/// read.
#[derive(Debug)]
pub enum Event {
    /// A message written in a conversation of a group.
    Guild {
        /// The conversation it was written in.
        channel: ChannelId,
        /// Its text.
        content: String,
        /// Everybody it mentions, in order.
        mentions: Vec<Mention>,
    },
    /// A message written to the program in private.
    Direct {
        /// Who wrote it.
        author: Mention,
    },
}

/// What is to be done about a message.
#[derive(Debug, PartialEq, Eq)]
pub enum Reaction {
    /// Nothing: the message is no command, or comes from nobody who hosts a
    /// round.
    Ignore,
    /// Tell the conversation that too few people were mentioned.
    ReportTooFewMentions,
    /// Tell the conversation that the shuffle failed, and why.
    ReportFailure(ShuffleError),
    /// Tell the participants of the new round whom they play.
    Announce(Game),
    /// Pass the message on to the conversation of the round that its author
    /// hosts.
    Relay(ChannelId),
}

/// `reaction` and `after` are a right answer to a message with the text
/// `content` that mentions `mentions` in `channel`, when the rounds were
/// `before`.
pub open spec fn answers_guild_message(
    before: Rounds,
    channel: ChannelId,
    content: Seq<char>,
    mentions: Seq<Mention>,
    reaction: Reaction,
    after: Rounds,
) -> bool {
    match reaction {
        Reaction::Ignore => parse_outcome(content) is Err && after == before,
        Reaction::ReportTooFewMentions => {
            &&& parse_outcome(content) is Ok
            &&& humans(mentions).len() < MIN_PLAYERS
            &&& after == before
        },
        Reaction::ReportFailure(e) => {
            &&& parse_outcome(content) is Ok
            &&& humans(mentions).len() >= MIN_PLAYERS
            &&& rejection(humans(mentions), exclusions(before, channel)) == Some(e)
            &&& after == before
        },
        Reaction::Announce(game) => {
            &&& parse_outcome(content) is Ok
            &&& rejection(humans(mentions), exclusions(before, channel)) is None
            &&& follows_on(game@, before, channel, humans(mentions))
            &&& after == after_put(before, game@)
        },
        Reaction::Relay(_) => false,
    }
}

/// `reaction` is the right answer to a private message of `author`.
pub open spec fn answers_direct_message(
    rounds: Rounds,
    author: Mention,
    reaction: Reaction,
) -> bool {
    match reaction {
        Reaction::Ignore => author.bot || round_of(rounds, author.id) is None,
        Reaction::Relay(channel) => {
            &&& !author.bot
            &&& round_of(rounds, author.id) matches Some(game)
            &&& game.channel == channel
        },
        _ => false,
    }
}

/// Handles a message written in `channel`. A message that is no command is
/// passed over. A command that mentions fewer than [`MIN_PLAYERS`] people
/// is answered without a shuffle. Any other command starts a round as
/// [`request_round`] does.
pub fn handle_guild_message(
    games: &mut Games,
    channel: ChannelId,
    content: String,
    mentions: &Vec<Mention>,
) -> (reaction: Reaction)
    ensures
        consistent(final(games)@),
        answers_guild_message(
            old(games)@,
            channel,
            content@,
            mentions@,
            reaction,
            final(games)@,
        ),
{
    games.recall_consistency();
    if parse_shuffle_message(content).is_err() {
        return Reaction::Ignore;
    }
    let people = real_people(mentions);
    if people.len() < MIN_PLAYERS {
        return Reaction::ReportTooFewMentions;
    }
    match request_round(games, channel, &people) {
        Ok(game) => Reaction::Announce(game),
        Err(e) => Reaction::ReportFailure(e),
    }
}

/// Handles a message written in private by `author`: it is relayed to the
/// conversation of the round that `author` hosts. A message of a program, or
/// of somebody who hosts no round, is passed over.
pub fn handle_direct_message(games: &Games, author: Mention) -> (reaction: Reaction)
    ensures
        consistent(games@),
        answers_direct_message(games@, author, reaction),
{
    if author.bot {
        games.recall_consistency();
        return Reaction::Ignore;
    }
    match games.get_by_initiator(author.id) {
        Some(game) => Reaction::Relay(game.get_channel()),
        None => Reaction::Ignore,
    }
}

/// Handles `event`, whichever kind of message it is.
pub fn handle_event(games: &mut Games, event: Event) -> (reaction: Reaction)
    ensures
        consistent(final(games)@),
        match event {
            Event::Guild { channel, content, mentions } => answers_guild_message(
                old(games)@,
                channel,
                content@,
                mentions@,
                reaction,
                final(games)@,
            ),
            Event::Direct { author } => {
                &&& answers_direct_message(old(games)@, author, reaction)
                &&& final(games)@ == old(games)@
            },
        },
{
    match event {
        Event::Guild { channel, content, mentions } => handle_guild_message(
            games,
            channel,
            content,
            &mentions,
        ),
        Event::Direct { author } => handle_direct_message(games, author),
    }
}

} // verus!
