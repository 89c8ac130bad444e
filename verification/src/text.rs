//! The words in which participants and conversations are addressed.

use vstd::prelude::*;
use vstd::string::*;
use crate::ids::UserId;
use crate::shuffler::ShuffleError;

verus! {

/// The character for the digit `d`.
pub open spec fn digit(d: nat) -> char {
    if d == 0 {
        '0'
    } else if d == 1 {
        '1'
    } else if d == 2 {
        '2'
    } else if d == 3 {
        '3'
    } else if d == 4 {
        '4'
    } else if d == 5 {
        '5'
    } else if d == 6 {
        '6'
    } else if d == 7 {
        '7'
    } else if d == 8 {
        '8'
    } else {
        '9'
    }
}

/// `n` written in decimal digits, without leading zeros.
pub open spec fn decimal(n: nat) -> Seq<char>
    decreases n,
{
    if n < 10 {
        seq![digit(n)]
    } else {
        decimal(n / 10).push(digit(n % 10))
    }
}

/// How a participant is mentioned in a message.
pub open spec fn mention_of(id: UserId) -> Seq<char> {
    seq!['<', '@'] + decimal(id.0 as nat) + seq!['>']
}

/// The name under which `error` is reported.
pub open spec fn name_of(error: ShuffleError) -> Seq<char> {
    match error {
        ShuffleError::TooFewPeople => "TooFewPeople"@,
        ShuffleError::DuplicatesDetected => "DuplicatesDetected"@,
        ShuffleError::TooManyExclusions => "TooManyExclusions"@,
        ShuffleError::ExclusionsUnsatisfiable => "ExclusionsUnsatisfiable"@,
    }
}

/// What a conversation is told when too few people were mentioned.
pub const TOO_FEW_MENTIONS: &'static str = "Too few real people mentioned.";

/// What the host of a round is told in addition.
pub const HOST_NOTICE: &'static str =
    "You are also the host! Send me a message to relay it to everyone in your game.";

/// The digit `d` as a text of one character.
fn digit_text(d: u64) -> (text: &'static str)
    requires
        d < 10,
    ensures
        text@ == seq![digit(d as nat)],
{
    proof {
        reveal_strlit("0");
        reveal_strlit("1");
        reveal_strlit("2");
        reveal_strlit("3");
        reveal_strlit("4");
        reveal_strlit("5");
        reveal_strlit("6");
        reveal_strlit("7");
        reveal_strlit("8");
        reveal_strlit("9");
    }
    let text = if d == 0 {
        "0"
    } else if d == 1 {
        "1"
    } else if d == 2 {
        "2"
    } else if d == 3 {
        "3"
    } else if d == 4 {
        "4"
    } else if d == 5 {
        "5"
    } else if d == 6 {
        "6"
    } else if d == 7 {
        "7"
    } else if d == 8 {
        "8"
    } else {
        "9"
    };
    assert(text@ =~= seq![digit(d as nat)]);
    text
}

/// Appends `n` in decimal digits to `text`.
fn append_decimal(text: &mut String, n: u64)
    ensures
        final(text)@ == old(text)@ + decimal(n as nat),
    decreases n,
{
    if n >= 10 {
        append_decimal(text, n / 10);
    }
    text.append(digit_text(n % 10));
    assert(text@ =~= old(text)@ + decimal(n as nat));
}

/// The mention of `id`: its number in decimal digits between `<@` and `>`.
pub fn mention(id: UserId) -> (text: String)
    ensures
        text@ == mention_of(id),
{
    proof {
        reveal_strlit("<@");
        reveal_strlit(">");
    }
    let mut text = String::from_str("<@");
    append_decimal(&mut text, id.0);
    text.append(">");
    assert(text@ =~= mention_of(id));
    text
}

/// What a participant is told who plays as `avatar`.
pub fn role_notice(avatar: UserId) -> (text: String)
    ensures
        text@ == "You play as "@ + mention_of(avatar) + "!"@,
{
    let mut text = String::from_str("You play as ");
    let who = mention(avatar);
    text.append(who.as_str());
    text.append("!");
    text
}

/// What a conversation is told when its host wrote `content` in private.
pub fn relay_text(content: &str) -> (text: String)
    ensures
        text@ == "The host says: \""@ + content@ + "\""@,
{
    let mut text = String::from_str("The host says: \"");
    text.append(content);
    text.append("\"");
    text
}

/// What a conversation is told when the shuffle failed with `error`.
pub fn failure_text(error: ShuffleError) -> (text: String)
    ensures
        text@ == "Error: "@ + name_of(error),
{
    let mut text = String::from_str("Error: ");
    match error {
        ShuffleError::TooFewPeople => text.append("TooFewPeople"),
        ShuffleError::DuplicatesDetected => text.append("DuplicatesDetected"),
        ShuffleError::TooManyExclusions => text.append("TooManyExclusions"),
        ShuffleError::ExclusionsUnsatisfiable => text.append("ExclusionsUnsatisfiable"),
    }
    text
}

} // verus!
