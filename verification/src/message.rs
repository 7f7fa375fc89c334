//! The messages that nodes send each other, and who gets which.

use vstd::prelude::*;
use crate::block::{names_set, names_sorted, Vote};
use crate::name::{Name, Prefix};
use crate::routing_table::{confirmed_members, known_nodes, RoutingTable};

verus! {

/// A message from one node to another.
#[derive(Debug, Clone, PartialEq, Eq, Hash)]
pub struct Message {
    pub sender: Name,
    pub recipient: Name,
    pub content: MessageContent,
}

/// What a message says.
#[derive(Debug, Clone, PartialEq, Eq, Hash)]
pub enum MessageContent {
    /// Vote for a block.
    VoteMsg(Vote),
    /// Notification that we believe this vote to be agreed by all the listed members.
    VoteAgreedMsg(Vote, Vec<Name>),
    /// Message sent from joining node (sender) to all section members (recipients).
    NodeJoined,
    /// Message sent to a joining node to get it up to date on the current blocks.
    BootstrapMsg(RoutingTable),
    /// The connection of two nodes, asked for or granted.
    Connect,
    /// The disconnection of two nodes.
    Disconnect,
}

/// XOR distance between the lower bounds of two prefixes.
pub fn prefix_dist(p1: &Prefix, p2: &Prefix) -> (distance: u64)
    ensures
        distance == p1.leading_bits() ^ p2.leading_bits(),
{
    p1.lower_bound().0 ^ p2.lower_bound().0
}

impl MessageContent {
    /// Whether the content is a vote.
    pub open spec fn is_vote(&self) -> bool {
        self is VoteMsg
    }

    /// The nodes that a message of this content goes to, in ascending order: a vote goes to
    /// the confirmed members of our own section, anything else to every node of the
    /// sections that we track.
    pub fn recipients(&self, our_name: Name, rt: &RoutingTable) -> (names: Vec<Name>)
        requires
            rt.wf(),
        ensures
            names_sorted(names@),
            names_set(names@) == (if self.is_vote() {
                confirmed_members(rt.own_ledger())
            } else {
                known_nodes(rt@.shards)
            }),
    {
        match self {
            MessageContent::VoteMsg(_) => {
                match rt.our_section() {
                    Some(names) => names,
                    None => {
                        let names: Vec<Name> = Vec::new();
                        assert(names_set(names@) =~= Set::<Name>::empty());
                        names
                    },
                }
            },
            _ => rt.current_nodes(),
        }
    }
}

/// Whether `copy` says what `content` says.
pub open spec fn same_content(content: MessageContent, copy: MessageContent) -> bool {
    match content {
        MessageContent::VoteAgreedMsg(vote, voters) => match copy {
            MessageContent::VoteAgreedMsg(vote2, voters2) => vote2 == vote && voters2@ == voters@,
            _ => false,
        },
        MessageContent::BootstrapMsg(table) => match copy {
            MessageContent::BootstrapMsg(table2) => table2@ == table@ && (table.wf()
                ==> table2.wf()),
            _ => false,
        },
        _ => copy == content,
    }
}

impl MessageContent {
    /// A copy of the content.
    pub fn duplicate(&self) -> (copy: MessageContent)
        ensures
            same_content(*self, copy),
    {
        match self {
            MessageContent::VoteMsg(vote) => MessageContent::VoteMsg(*vote),
            MessageContent::VoteAgreedMsg(vote, voters) => {
                let mut names: Vec<Name> = Vec::new();
                let mut i: usize = 0;
                while i < voters.len()
                    invariant
                        i <= voters.len(),
                        names@ == voters@.take(i as int),
                    decreases voters.len() - i,
                {
                    names.push(voters[i]);
                    assert(voters@.take(i + 1) =~= voters@.take(i as int).push(voters@[i as int]));
                    i += 1;
                }
                assert(voters@.take(i as int) =~= voters@);
                MessageContent::VoteAgreedMsg(*vote, names)
            },
            MessageContent::NodeJoined => MessageContent::NodeJoined,
            MessageContent::BootstrapMsg(table) => MessageContent::BootstrapMsg(table.duplicate()),
            MessageContent::Connect => MessageContent::Connect,
            MessageContent::Disconnect => MessageContent::Disconnect,
        }
    }
}

} // verus!
