//! Opaque identifiers for participants and conversations.

use vstd::prelude::*;

verus! {

/// Handle of one participant. Two participants are the same exactly when
/// their handles are equal; nothing else is read from the number.
#[derive(Clone, Copy, Debug, PartialEq, Eq, Hash, Structural)]
pub struct UserId(pub u64);

/// Handle of one conversation.
#[derive(Clone, Copy, Debug, PartialEq, Eq, Hash, Structural)]
pub struct ChannelId(pub u64);

/// The participants of one round, in the order in which they were named.
pub type Players = Vec<UserId>;

/// Assignment pairs `(assignee, target)`: the assignee privately plays as
/// the target.
pub type Pairs = Vec<(UserId, UserId)>;

} // verus!
