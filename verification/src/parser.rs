//! Recognises the command that asks for a new round.

use vstd::prelude::*;
use vstd::string::*;
use vstd::utf8::encode_utf8;

verus! {

/// Why a message is not taken as a request for a new round.
#[derive(Clone, Copy, Debug, PartialEq, Eq, Structural)]
pub enum ShuffleParseError {
    /// The message is shorter than the short keyword.
    MessageTooShort,
    /// The message does not begin with a keyword.
    NotShuffleMessage,
}

/// The long form of the command, with the space that ends it.
pub const SHUFFLE_KEYWORD: &'static str = "!shuffle ";

/// The short form of the command, with the space that ends it.
pub const SHUFFLE_KEYWORD_SHORT: &'static str = "!s ";

/// The characters of the long keyword.
pub open spec fn long_keyword() -> Seq<char> {
    seq!['!', 's', 'h', 'u', 'f', 'f', 'l', 'e', ' ']
}

/// The characters of the short keyword.
pub open spec fn short_keyword() -> Seq<char> {
    seq!['!', 's', ' ']
}

/// The number of bytes that `text` takes in UTF-8.
pub open spec fn byte_length(text: Seq<char>) -> nat {
    encode_utf8(text).len()
}

/// What `parse_shuffle_message` answers on `text`: a text of fewer bytes
/// than the short keyword is too short, and any other text is a request
/// exactly when it begins with one of the two keywords.
pub open spec fn parse_outcome(text: Seq<char>) -> Result<(), ShuffleParseError> {
    if byte_length(text) < short_keyword().len() {
        Err(ShuffleParseError::MessageTooShort)
    } else if short_keyword().is_prefix_of(text) || long_keyword().is_prefix_of(text) {
        Ok(())
    } else {
        Err(ShuffleParseError::NotShuffleMessage)
    }
}

/// Whether `text` begins with `keyword`, character by character.
pub fn begins_with(text: &str, keyword: &str) -> (yes: bool)
    ensures
        yes == keyword@.is_prefix_of(text@),
{
    let length = keyword.unicode_len();
    if text.unicode_len() < length {
        return false;
    }
    let mut i: usize = 0;
    while i < length
        invariant
            i <= length,
            length == keyword@.len(),
            length <= text@.len(),
            forall|k: int| 0 <= k < i ==> text@[k] == keyword@[k],
        decreases length - i,
    {
        if text.get_char(i) != keyword.get_char(i) {
            return false;
        }
        i += 1;
    }
    assert(keyword@ =~= text@.subrange(0, length as int));
    true
}

/// Decides whether `message` asks for a new round.
pub fn parse_shuffle_message(message: String) -> (result: Result<(), ShuffleParseError>)
    ensures
        result == parse_outcome(message@),
{
    let text = message.as_str();
    proof {
        reveal_strlit("!s ");
        reveal_strlit("!shuffle ");
        assert(SHUFFLE_KEYWORD_SHORT@ =~= short_keyword());
        assert(SHUFFLE_KEYWORD@ =~= long_keyword());
        assert(is_ascii(SHUFFLE_KEYWORD_SHORT));
        is_ascii_spec_bytes(SHUFFLE_KEYWORD_SHORT);
        assert(SHUFFLE_KEYWORD_SHORT.spec_bytes().len() == 3);
        assert(text.spec_bytes().len() == byte_length(message@));
    }
    if text.as_bytes().len() < SHUFFLE_KEYWORD_SHORT.as_bytes().len() {
        return Err(ShuffleParseError::MessageTooShort);
    }
    if !begins_with(text, SHUFFLE_KEYWORD_SHORT) && !begins_with(text, SHUFFLE_KEYWORD) {
        return Err(ShuffleParseError::NotShuffleMessage);
    }
    Ok(())
}

} // verus!
