//! A node: its routing table, the peers it is connected to, and the candidates that it is
//! waiting to see in a section.

use vstd::prelude::*;
use crate::block::{
    add_names, holds_name, insert_name, lemma_names_len, names_set, names_sorted, remove_name, Vote,
};
use crate::message::{same_content, Message, MessageContent};
use crate::name::Name;
use crate::params::NodeParams;
use crate::name::Prefix;
use crate::block::BlockModel;
use crate::routing_table::{
    after_proposal, any_confirmed, confirmed_members, known_nodes, proposal_defined, proposal_id,
    tallied, votes_defined, RoutingTable,
};

verus! {

/// The number of message hashes that a node remembers.
pub const MESSAGE_FILTER_LEN: usize = 1024;

/// A peer that has asked to join, with the step at which it did.
#[derive(Debug, Clone, Copy)]
pub struct Candidate {
    pub step_added: u64,
}

/// A node of the network.
#[derive(Debug, Clone)]
pub struct Node {
    /// Our node's name.
    pub our_name: Name,
    /// The block storage
    pub routing_table: RoutingTable,
    /// Peers that we're currently connected to, in ascending order.
    pub connections: Vec<Name>,
    /// Nodes that we've sent connection requests to, in ascending order.
    pub connect_requests: Vec<Name>,
    /// Candidates who we are waiting to add to our current blocks, in ascending order of
    /// their names, each name once.
    pub candidates: Vec<(Name, Candidate)>,
    /// Filter for hashes of recent messages we've already sent and shouldn't resend, the
    /// oldest first.
    pub message_filter: Vec<u64>,
    /// Network configuration parameters.
    pub params: NodeParams,
    /// Step that this node was created.
    pub step_created: u64,
}

/// Whether a candidate added at `step_added` is still waited for at `step`.
pub open spec fn recent(step_added: u64, join_timeout: u64, step: u64) -> bool {
    step_added + join_timeout >= step
}

/// Candidates in strictly ascending order of their names.
pub open spec fn candidates_sorted(s: Seq<(Name, Candidate)>) -> bool {
    forall|i: int, j: int| 0 <= i < j < s.len() ==> s[i].0.0 < s[j].0.0
}

/// Whether `name` is one of the candidates.
pub open spec fn is_candidate_name(s: Seq<(Name, Candidate)>, name: Name) -> bool {
    exists|i: int| 0 <= i < s.len() && (#[trigger] s[i]).0 == name
}

/// Whether `name` is a candidate that is still waited for at `step`.
pub open spec fn recent_candidate(
    s: Seq<(Name, Candidate)>,
    name: Name,
    join_timeout: u64,
    step: u64,
) -> bool {
    exists|i: int|
        0 <= i < s.len() && (#[trigger] s[i]).0 == name && recent(
            s[i].1.step_added,
            join_timeout,
            step,
        )
}

/// Whether `name` is one of the names of `source` that `keep` marks.
pub open spec fn selected(source: Seq<Name>, keep: Seq<bool>, name: Name) -> bool {
    exists|k: int| 0 <= k < source.len() && source[k] == name && #[trigger] keep[k]
}

/// Whether `name` is one of the first `upto` names of `source` and `keep` marks it.
spec fn picked(source: Seq<Name>, keep: Seq<bool>, upto: int, name: Name) -> bool {
    exists|k: int| 0 <= k < upto && source[k] == name && #[trigger] keep[k]
}

/// The names of `source` that `keep` marks, in their order.
fn select_names(source: &Vec<Name>, keep: &Vec<bool>) -> (out: Vec<Name>)
    requires
        names_sorted(source@),
        keep.len() == source.len(),
    ensures
        names_sorted(out@),
        names_set(out@) == Set::new(|name: Name| selected(source@, keep@, name)),
{
    let mut out: Vec<Name> = Vec::new();
    let mut i: usize = 0;
    while i < source.len()
        invariant
            i <= source.len(),
            keep.len() == source.len(),
            names_sorted(source@),
            names_sorted(out@),
            forall|j: int| 0 <= j < out.len() ==> picked(source@, keep@, i as int, #[trigger] out@[j]),
            forall|k: int| 0 <= k < i && #[trigger] keep@[k] ==> out@.contains(source@[k]),
        decreases source.len() - i,
    {
        let ghost before = out@;
        if keep[i] {
            out.push(source[i]);
        }
        proof {
            let after = out@;
            assert forall|j: int| 0 <= j < after.len() implies picked(
                source@,
                keep@,
                i + 1,
                #[trigger] after[j],
            ) by {
                if j < before.len() {
                    assert(picked(source@, keep@, i as int, before[j]));
                    let k = choose|k: int|
                        0 <= k < i && source@[k] == before[j] && #[trigger] keep@[k];
                    assert(source@[k] == after[j] && keep@[k] && k < i + 1);
                } else {
                    assert(source@[i as int] == after[j] && keep@[i as int]);
                }
            }
            assert forall|a: int, b: int| 0 <= a < b < after.len() implies after[a].0
                < after[b].0 by {
                if b == before.len() {
                    assert(picked(source@, keep@, i as int, before[a]));
                    let k = choose|k: int|
                        0 <= k < i && source@[k] == before[a] && #[trigger] keep@[k];
                    assert(source@[k].0 < source@[i as int].0);
                } else {
                    assert(before[a].0 < before[b].0);
                }
            }
            assert forall|k: int| 0 <= k < i + 1 && #[trigger] keep@[k] implies after.contains(
                source@[k],
            ) by {
                if k < i {
                    let j = choose|j: int| 0 <= j < before.len() && before[j] == source@[k];
                    assert(after[j] == source@[k]);
                } else {
                    assert(after[before.len() as int] == source@[k]);
                }
            }
        }
        i += 1;
    }
    proof {
        assert forall|name: Name|
            names_set(out@).contains(name) == selected(source@, keep@, name) by {
            if out@.contains(name) {
                let j = choose|j: int| 0 <= j < out@.len() && out@[j] == name;
                assert(picked(source@, keep@, i as int, out@[j]));
                let k = choose|k: int| 0 <= k < i && source@[k] == out@[j] && #[trigger] keep@[k];
                assert(source@[k] == name && keep@[k]);
            }
            if selected(source@, keep@, name) {
                let k = choose|k: int|
                    0 <= k < source@.len() && source@[k] == name && #[trigger] keep@[k];
                assert(keep@[k]);
            }
        }
        assert(names_set(out@) =~= Set::new(|name: Name| selected(source@, keep@, name)));
    }
    out
}

/// The index of the candidate `name`, if it is one.
fn find_candidate(s: &Vec<(Name, Candidate)>, name: Name) -> (found: Option<usize>)
    ensures
        match found {
            Some(i) => i < s.len() && s[i as int].0 == name,
            None => !is_candidate_name(s@, name),
        },
{
    let mut i: usize = 0;
    while i < s.len()
        invariant
            i <= s.len(),
            forall|k: int| 0 <= k < i ==> (#[trigger] s[k]).0 != name,
        decreases s.len() - i,
    {
        if s[i].0 == name {
            return Some(i);
        }
        i += 1;
    }
    None
}

impl Candidate {
    /// Whether the candidate is still waited for at `step`: whether no more than
    /// `join_timeout` steps have passed since it was added.
    pub fn is_recent(&self, join_timeout: u64, step: u64) -> (waited: bool)
        ensures
            waited == recent(self.step_added, join_timeout, step),
    {
        step <= self.step_added || step - self.step_added <= join_timeout
    }
}

impl Node {
    /// The table is well formed, the lists are in ascending order, and the filter holds no
    /// more hashes than it may.
    pub open spec fn wf(&self) -> bool {
        &&& self.routing_table.wf()
        &&& names_sorted(self.connections@)
        &&& names_sorted(self.connect_requests@)
        &&& candidates_sorted(self.candidates@)
        &&& self.message_filter@.len() <= MESSAGE_FILTER_LEN
    }

    /// Whether `name` is a candidate that is still waited for at `step` and that we are
    /// connected to.
    pub open spec fn awaits(&self, name: Name, step: u64) -> bool {
        recent_candidate(self.candidates@, name, self.params.join_timeout, step) && names_set(
            self.connections@,
        ).contains(name)
    }

    /// Whether `name` is a node known to `shards` that we are not connected to and that is
    /// no candidate.
    pub open spec fn lost_in(&self, shards: Seq<(Prefix, Seq<BlockModel>)>, name: Name) -> bool {
        known_nodes(shards).contains(name) && name != self.our_name && !names_set(
            self.connections@,
        ).contains(name) && !is_candidate_name(self.candidates@, name)
    }

    /// Whether `name` is a known node that we are not connected to and that is no candidate.
    pub open spec fn has_lost(&self, name: Name) -> bool {
        self.lost_in(self.routing_table@.shards, name)
    }

    /// Create a new node which starts from a given routing table, connected to every node
    /// that the table knows.
    pub fn new(name: Name, rt: RoutingTable, params: NodeParams, step: u64) -> (node: Node)
        requires
            rt.wf(),
        ensures
            node.wf(),
            node.our_name == name,
            node.routing_table == rt,
            names_set(node.connections@) == known_nodes(rt@.shards),
            node.connect_requests@.len() == 0,
            node.candidates@.len() == 0,
            node.message_filter@.len() == 0,
            node.params == params,
            node.step_created == step,
    {
        let connections = rt.current_nodes();
        Node {
            our_name: name,
            routing_table: rt,
            connections,
            connect_requests: Vec::new(),
            candidates: Vec::new(),
            message_filter: Vec::new(),
            params,
            step_created: step,
        }
    }

    /// Minimum size that all sections must be before splitting.
    pub fn min_split_size(&self) -> (size: usize)
        requires
            self.params.min_section_size + self.params.split_buffer <= usize::MAX,
        ensures
            size == self.params.min_section_size + self.params.split_buffer,
    {
        self.params.min_section_size + self.params.split_buffer
    }

    /// Takes the votes of `voted_for` for the block of `vote` into the routing table.
    /// Returns whether one of them confirmed the block.
    pub fn add_vote(&mut self, vote: Vote, voted_for: Vec<Name>) -> (confirmed: bool)
        requires
            old(self).wf(),
            votes_defined(old(self).routing_table@.shards, vote.block_id, voted_for@),
        ensures
            final(self).wf(),
            final(self).routing_table@.our_prefix == old(self).routing_table@.our_prefix,
            final(self).routing_table@.shards == tallied(
                old(self).routing_table@.shards,
                vote.block_id,
                voted_for@,
            ),
            confirmed == any_confirmed(old(self).routing_table@.shards, vote.block_id, voted_for@),
            final(self).our_name == old(self).our_name,
            final(self).connections == old(self).connections,
            final(self).connect_requests == old(self).connect_requests,
            final(self).candidates == old(self).candidates,
            final(self).message_filter == old(self).message_filter,
            final(self).params == old(self).params,
            final(self).step_created == old(self).step_created,
    {
        self.routing_table.add_votes(vote.block_id, voted_for)
    }

    /// Whether `name` is a candidate that is still waited for at `step` and that we are
    /// connected to.
    pub fn is_candidate(&self, name: &Name, step: u64) -> (found: bool)
        requires
            self.wf(),
        ensures
            found == self.awaits(*name, step),
    {
        match find_candidate(&self.candidates, *name) {
            Some(i) => {
                let waited = self.candidates[i].1.is_recent(self.params.join_timeout, step);
                proof {
                    let s = self.candidates@;
                    if recent_candidate(s, *name, self.params.join_timeout, step) {
                        let j = choose|j: int|
                            0 <= j < s.len() && (#[trigger] s[j]).0 == *name && recent(
                                s[j].1.step_added,
                                self.params.join_timeout,
                                step,
                            );
                        if j < i {
                            assert(s[j].0.0 < s[i as int].0.0);
                        } else if j > i {
                            assert(s[i as int].0.0 < s[j].0.0);
                        }
                    }
                    if waited {
                        assert(s[i as int].0 == *name);
                    }
                }
                waited && holds_name(&self.connections, *name)
            },
            None => false,
        }
    }

    /// The confirmed members of our own section.
    pub fn our_current_section(&self) -> (section: Option<Vec<Name>>)
        requires
            self.wf(),
        ensures
            match section {
                Some(names) => names_sorted(names@) && crate::chain::last_confirmed(
                    self.routing_table.own_ledger(),
                ).is_some() && names_set(names@) == confirmed_members(
                    self.routing_table.own_ledger(),
                ),
                None => crate::chain::last_confirmed(self.routing_table.own_ledger()).is_none(),
            },
    {
        self.routing_table.our_section()
    }

    /// The candidates that we vote to add at `step`: those that are still waited for and
    /// that we are connected to, in ascending order.
    pub fn nodes_to_add(&self, step: u64) -> (names: Vec<Name>)
        requires
            self.wf(),
        ensures
            names_sorted(names@),
            names_set(names@) == Set::new(|name: Name| self.awaits(name, step)),
    {
        let mut source: Vec<Name> = Vec::new();
        let mut keep: Vec<bool> = Vec::new();
        let mut i: usize = 0;
        while i < self.candidates.len()
            invariant
                i <= self.candidates.len(),
                source.len() == i,
                keep.len() == i,
                forall|k: int| 0 <= k < i ==> #[trigger] source[k] == self.candidates[k].0,
                forall|k: int|
                    0 <= k < i ==> #[trigger] keep[k] == (recent(
                        self.candidates[k].1.step_added,
                        self.params.join_timeout,
                        step,
                    ) && names_set(self.connections@).contains(self.candidates[k].0)),
            decreases self.candidates.len() - i,
        {
            let entry = self.candidates[i];
            source.push(entry.0);
            keep.push(
                holds_name(&self.connections, entry.0) && entry.1.is_recent(
                    self.params.join_timeout,
                    step,
                ),
            );
            i += 1;
        }
        proof {
            let s = self.candidates@;
            assert forall|a: int, b: int| 0 <= a < b < source@.len() implies source@[a].0
                < source@[b].0 by {
                assert(s[a].0.0 < s[b].0.0);
            }
            assert forall|name: Name|
                selected(source@, keep@, name) == self.awaits(name, step) by {
                if selected(source@, keep@, name) {
                    let k = choose|k: int|
                        0 <= k < source@.len() && source@[k] == name && #[trigger] keep@[k];
                    assert(s[k].0 == name);
                }
                if self.awaits(name, step) {
                    let k = choose|k: int|
                        0 <= k < s.len() && (#[trigger] s[k]).0 == name && recent(
                            s[k].1.step_added,
                            self.params.join_timeout,
                            step,
                        );
                    assert(source@[k] == name && keep@[k]);
                }
            }
            assert(Set::new(|name: Name| selected(source@, keep@, name)) =~= Set::new(
                |name: Name| self.awaits(name, step),
            ));
        }
        select_names(&source, &keep)
    }

    /// The known nodes that we vote to drop: those that we are not connected to and that are
    /// no candidates, in ascending order.
    pub fn nodes_to_drop(&self) -> (names: Vec<Name>)
        requires
            self.wf(),
        ensures
            names_sorted(names@),
            names_set(names@) == Set::new(|name: Name| self.has_lost(name)),
    {
        let source = self.routing_table.current_nodes();
        let mut keep: Vec<bool> = Vec::new();
        let mut i: usize = 0;
        while i < source.len()
            invariant
                i <= source.len(),
                keep.len() == i,
                forall|k: int| 0 <= k < i ==> #[trigger] keep[k] == self.has_lost(source[k]),
                names_set(source@) == known_nodes(self.routing_table@.shards),
            decreases source.len() - i,
        {
            let peer = source[i];
            assert(source@.contains(peer));
            assert(names_set(source@).contains(peer));
            let lost = peer != self.our_name && !holds_name(&self.connections, peer)
                && find_candidate(&self.candidates, peer).is_none();
            keep.push(lost);
            i += 1;
        }
        proof {
            assert forall|name: Name| selected(source@, keep@, name) == self.has_lost(name) by {
                if selected(source@, keep@, name) {
                    let k = choose|k: int|
                        0 <= k < source@.len() && source@[k] == name && #[trigger] keep@[k];
                    assert(self.has_lost(source@[k]));
                }
                if self.has_lost(name) {
                    assert(names_set(source@).contains(name));
                    let k = choose|k: int| 0 <= k < source@.len() && source@[k] == name;
                    assert(keep@[k] == self.has_lost(source@[k]));
                    assert(source@[k] == name && keep@[k]);
                }
            }
            assert(Set::new(|name: Name| selected(source@, keep@, name)) =~= Set::new(
                |name: Name| self.has_lost(name),
            ));
        }
        select_names(&source, &keep)
    }

    /// The message that brings the node `joining_node` up to date: a copy of our table.
    pub fn construct_bootstrap_msg(&self, joining_node: Name) -> (message: Message)
        requires
            self.wf(),
        ensures
            message.sender == self.our_name,
            message.recipient == joining_node,
            match message.content {
                MessageContent::BootstrapMsg(table) => table@ == self.routing_table@ && table.wf(),
                _ => false,
            },
    {
        Message {
            sender: self.our_name,
            recipient: joining_node,
            content: MessageContent::BootstrapMsg(self.routing_table.duplicate()),
        }
    }

    /// Takes the table of a bootstrap message in place of our own.
    pub fn apply_bootstrap_msg(&mut self, routing_table: RoutingTable)
        requires
            old(self).wf(),
            routing_table.wf(),
        ensures
            final(self).wf(),
            final(self).routing_table == routing_table,
            final(self).our_name == old(self).our_name,
            final(self).connections == old(self).connections,
            final(self).connect_requests == old(self).connect_requests,
            final(self).candidates == old(self).candidates,
            final(self).message_filter == old(self).message_filter,
            final(self).params == old(self).params,
            final(self).step_created == old(self).step_created,
    {
        self.routing_table.merge(routing_table);
    }

    /// Whether we are not connected to `name`.
    pub fn is_disconnected_from(&self, name: &Name) -> (disconnected: bool)
        ensures
            disconnected == !names_set(self.connections@).contains(*name),
    {
        !holds_name(&self.connections, *name)
    }

    /// Step that this node was created.
    pub fn step_created(&self) -> (step: u64)
        ensures
            step == self.step_created,
    {
        self.step_created
    }

    /// Whether `node` is one of the nodes that our table knows.
    pub fn should_be_connected(&self, node: Name) -> (known: bool)
        requires
            self.wf(),
        ensures
            known == known_nodes(self.routing_table@.shards).contains(node),
    {
        let neighbours = self.routing_table.current_nodes();
        holds_name(&neighbours, node)
    }
}

/// Whether a message passes the filter: one that connects or disconnects always does, any
/// other unless its hash is remembered.
pub open spec fn passes(filter: Seq<u64>, content: MessageContent, hash: u64) -> bool {
    content is Connect || content is Disconnect || !filter.contains(hash)
}

/// The filter once it has taken `hash`: the oldest hash leaves where the filter is full.
pub open spec fn remembered(filter: Seq<u64>, hash: u64) -> Seq<u64> {
    if filter.len() == MESSAGE_FILTER_LEN {
        filter.drop_first().push(hash)
    } else {
        filter.push(hash)
    }
}

/// The messages that pass the filter, each tried after those before it have been taken.
pub open spec fn kept_messages(filter: Seq<u64>, messages: Seq<Message>, hashes: Seq<u64>) -> Seq<
    Message,
>
    decreases messages.len(),
{
    if messages.len() == 0 || hashes.len() == 0 {
        Seq::empty()
    } else if passes(filter, messages[0].content, hashes[0]) {
        seq![messages[0]] + kept_messages(
            remembered(filter, hashes[0]),
            messages.drop_first(),
            hashes.drop_first(),
        )
    } else {
        kept_messages(filter, messages.drop_first(), hashes.drop_first())
    }
}

/// The filter after the messages have been tried one after the other.
pub open spec fn filter_after(filter: Seq<u64>, messages: Seq<Message>, hashes: Seq<u64>) -> Seq<
    u64,
>
    decreases messages.len(),
{
    if messages.len() == 0 || hashes.len() == 0 {
        filter
    } else if passes(filter, messages[0].content, hashes[0]) {
        filter_after(remembered(filter, hashes[0]), messages.drop_first(), hashes.drop_first())
    } else {
        filter_after(filter, messages.drop_first(), hashes.drop_first())
    }
}

/// Whether `hash` is among `filter`.
fn holds_hash(filter: &Vec<u64>, hash: u64) -> (found: bool)
    ensures
        found == filter@.contains(hash),
{
    let mut i: usize = 0;
    while i < filter.len()
        invariant
            i <= filter.len(),
            forall|k: int| 0 <= k < i ==> filter[k] != hash,
        decreases filter.len() - i,
    {
        if filter[i] == hash {
            return true;
        }
        i += 1;
    }
    false
}

/// Makes `name` a candidate added at `step`, in place of what was recorded for it.
fn insert_candidate(s: &mut Vec<(Name, Candidate)>, name: Name, step: u64)
    requires
        candidates_sorted(old(s)@),
    ensures
        candidates_sorted(final(s)@),
        forall|entry: (Name, Candidate)|
            final(s)@.contains(entry) <==> (entry == (name, Candidate { step_added: step }) || (old(
                s,
            )@.contains(entry) && entry.0 != name)),
{
    let mut p: usize = 0;
    while p < s.len() && s[p].0.0 < name.0
        invariant
            p <= s.len(),
            *s == *old(s),
            forall|k: int| 0 <= k < p ==> s[k].0.0 < name.0,
        decreases s.len() - p,
    {
        p += 1;
    }
    let ghost before = s@;
    let ghost added = (name, Candidate { step_added: step });
    if p < s.len() && s[p].0.0 == name.0 {
        s.set(p, (name, Candidate { step_added: step }));
        proof {
            let after = s@;
            assert(before[p as int].0 == name);
            assert forall|i: int, j: int| 0 <= i < j < after.len() implies after[i].0.0
                < after[j].0.0 by {
                assert(before[i].0.0 < before[j].0.0);
            }
            assert forall|entry: (Name, Candidate)|
                after.contains(entry) <==> (entry == added || (before.contains(entry) && entry.0
                    != name)) by {
                if after.contains(entry) {
                    let i = choose|i: int| 0 <= i < after.len() && after[i] == entry;
                    if i != p {
                        assert(before[i] == entry);
                        if i < p {
                            assert(before[i].0.0 < before[p as int].0.0);
                        } else {
                            assert(before[p as int].0.0 < before[i].0.0);
                        }
                    }
                }
                if before.contains(entry) && entry.0 != name {
                    let i = choose|i: int| 0 <= i < before.len() && before[i] == entry;
                    assert(after[i] == entry);
                }
                if entry == added {
                    assert(after[p as int] == entry);
                }
            }
        }
    } else {
        s.insert(p, (name, Candidate { step_added: step }));
        proof {
            let after = s@;
            assert(after[p as int] == added);
            assert forall|i: int, j: int| 0 <= i < j < after.len() implies after[i].0.0
                < after[j].0.0 by {
                let a = if i < p { i } else { i - 1 };
                let b = if j < p { j } else { j - 1 };
                if i != p && j != p {
                    assert(before[a].0.0 < before[b].0.0);
                } else if j == p {
                    assert(before[i].0.0 < name.0);
                } else {
                    assert(before[p as int].0.0 <= before[b].0.0);
                }
            }
            assert forall|entry: (Name, Candidate)|
                after.contains(entry) <==> (entry == added || (before.contains(entry) && entry.0
                    != name)) by {
                if after.contains(entry) {
                    let i = choose|i: int| 0 <= i < after.len() && after[i] == entry;
                    if i < p {
                        assert(before[i] == entry);
                    } else if i > p {
                        assert(before[i - 1] == entry);
                        assert(before[p as int].0.0 <= before[i - 1].0.0);
                    }
                }
                if before.contains(entry) && entry.0 != name {
                    let i = choose|i: int| 0 <= i < before.len() && before[i] == entry;
                    if i < p {
                        assert(after[i] == entry);
                    } else {
                        assert(after[i + 1] == entry);
                    }
                }
            }
        }
    }
}

impl Node {
    /// Whether this node should shut down at `step` because it has failed to join a section:
    /// the time for it has passed, and its own section has no confirmed block or more than
    /// twice as many members as the node has connections.
    pub fn should_shutdown(&self, step: u64) -> (shutdown: bool)
        requires
            self.wf(),
        ensures
            shutdown == (step >= self.step_created + self.params.self_shutdown_timeout && (
            crate::chain::last_confirmed(self.routing_table.own_ledger()).is_none() || 2
                * self.connections@.len() < confirmed_members(
                self.routing_table.own_ledger(),
            ).len())),
    {
        let timeout_elapsed = step >= self.step_created && step - self.step_created
            >= self.params.self_shutdown_timeout;
        let failed = match self.routing_table.our_section() {
            Some(section) => {
                proof {
                    lemma_names_len(section@);
                }
                let connected: usize = self.connections.len();
                connected <= section.len() && connected < section.len() - connected
            },
            None => true,
        };
        timeout_elapsed && failed
    }

    /// Keeps of `messages` those that pass the filter of messages already sent, and
    /// remembers the hash of each message kept; `hashes` holds the hash of each message.
    pub fn filter_messages(&mut self, messages: Vec<Message>, hashes: &Vec<u64>) -> (filtered: Vec<
        Message,
    >)
        requires
            old(self).wf(),
            hashes@.len() == messages@.len(),
        ensures
            final(self).wf(),
            filtered@ == kept_messages(old(self).message_filter@, messages@, hashes@),
            final(self).message_filter@ == filter_after(
                old(self).message_filter@,
                messages@,
                hashes@,
            ),
            final(self).our_name == old(self).our_name,
            final(self).routing_table == old(self).routing_table,
            final(self).connections == old(self).connections,
            final(self).connect_requests == old(self).connect_requests,
            final(self).candidates == old(self).candidates,
            final(self).params == old(self).params,
            final(self).step_created == old(self).step_created,
    {
        let mut rest = messages;
        let mut filtered: Vec<Message> = Vec::new();
        let mut i: usize = 0;
        let ghost all = rest@;
        assert(hashes@.skip(0) =~= hashes@);
        assert(filtered@ + kept_messages(self.message_filter@, rest@, hashes@) =~= kept_messages(
            self.message_filter@,
            rest@,
            hashes@,
        ));
        while rest.len() > 0
            invariant
                i <= hashes.len(),
                rest@.len() == hashes@.len() - i,
                self.wf(),
                filtered@ + kept_messages(self.message_filter@, rest@, hashes@.skip(i as int))
                    == kept_messages(old(self).message_filter@, all, hashes@),
                filter_after(self.message_filter@, rest@, hashes@.skip(i as int)) == filter_after(
                    old(self).message_filter@,
                    all,
                    hashes@,
                ),
                self.our_name == old(self).our_name,
                self.routing_table == old(self).routing_table,
                self.connections == old(self).connections,
                self.connect_requests == old(self).connect_requests,
                self.candidates == old(self).candidates,
                self.params == old(self).params,
                self.step_created == old(self).step_created,
            decreases rest.len(),
        {
            let ghost pending = rest@;
            let ghost so_far = filtered@;
            let ghost filter = self.message_filter@;
            let message = rest.remove(0);
            let hash = hashes[i];
            assert(rest@ =~= pending.drop_first());
            assert(hashes@.skip(i as int)[0] == hash);
            assert(hashes@.skip(i as int).drop_first() =~= hashes@.skip(i + 1));
            let link = match message.content {
                MessageContent::Connect => true,
                MessageContent::Disconnect => true,
                _ => false,
            };
            if link || !holds_hash(&self.message_filter, hash) {
                filtered.push(message);
                if self.message_filter.len() == MESSAGE_FILTER_LEN {
                    let _ = self.message_filter.remove(0);
                    assert(self.message_filter@ =~= filter.drop_first());
                }
                self.message_filter.push(hash);
                assert(self.message_filter@ == remembered(filter, hash));
                assert(filtered@ + kept_messages(self.message_filter@, rest@, hashes@.skip(i + 1))
                    =~= so_far + (seq![message] + kept_messages(
                    self.message_filter@,
                    rest@,
                    hashes@.skip(i + 1),
                )));
            }
            i += 1;
        }
        assert(filtered@ + Seq::<Message>::empty() =~= filtered@);
        filtered
    }

    /// Takes the node `joining_node` as a candidate added at `step`, connects to it, and
    /// answers with a connection and with our table.
    fn welcome(&mut self, joining_node: Name, step: u64) -> (out: Vec<Message>)
        requires
            old(self).wf(),
        ensures
            final(self).wf(),
            joined(*old(self), *final(self), joining_node, step, out@),
    {
        insert_candidate(&mut self.candidates, joining_node, step);
        insert_name(&mut self.connections, joining_node);
        insert_name(&mut self.connect_requests, joining_node);
        let connect_msg = Message {
            sender: self.our_name,
            recipient: joining_node,
            content: MessageContent::Connect,
        };
        let mut out: Vec<Message> = Vec::new();
        out.push(connect_msg);
        out.push(self.construct_bootstrap_msg(joining_node));
        out
    }

    /// Gives up the connection to `peer`.
    fn disconnect(&mut self, peer: Name)
        requires
            old(self).wf(),
        ensures
            final(self).wf(),
            parted(*old(self), *final(self), peer),
    {
        remove_name(&mut self.connections, peer);
        remove_name(&mut self.connect_requests, peer);
    }

    /// Answers the request of `peer` for a connection: grants it where our table knows the
    /// peer, asking back unless we have asked already, and refuses it otherwise.
    fn answer_connect(&mut self, peer: Name) -> (out: Vec<Message>)
        requires
            old(self).wf(),
        ensures
            final(self).wf(),
            answered(*old(self), *final(self), peer, out@),
    {
        let mut out: Vec<Message> = Vec::new();
        if self.should_be_connected(peer) {
            insert_name(&mut self.connections, peer);
            if !holds_name(&self.connect_requests, peer) {
                insert_name(&mut self.connect_requests, peer);
                out.push(
                    Message {
                        sender: self.our_name,
                        recipient: peer,
                        content: MessageContent::Connect,
                    },
                );
            } else {
                assert(names_set(self.connect_requests@) =~= names_set(
                    self.connect_requests@,
                ).insert(peer));
            }
        } else {
            self.disconnect(peer);
            out.push(
                Message {
                    sender: self.our_name,
                    recipient: peer,
                    content: MessageContent::Disconnect,
                },
            );
        }
        out
    }

    /// Handle a message intended for us and return the messages we'd like to send, before
    /// the filter for messages already sent is applied to them.
    pub fn handle_message(&mut self, message: Message, step: u64) -> (to_send: Vec<Message>)
        requires
            old(self).wf(),
            can_handle(*old(self), message),
        ensures
            final(self).wf(),
            handled(*old(self), *final(self), message, step, to_send@),
    {
        match message.content {
            MessageContent::NodeJoined => self.welcome(message.sender, step),
            MessageContent::VoteMsg(vote) => {
                let mut voters: Vec<Name> = Vec::new();
                voters.push(message.sender);
                assert(voters@ =~= seq![message.sender]);
                let _ = self.add_vote(vote, voters);
                Vec::new()
            },
            MessageContent::VoteAgreedMsg(vote, voters) => {
                let _ = self.add_vote(vote, voters);
                Vec::new()
            },
            MessageContent::BootstrapMsg(routing_table) => {
                self.apply_bootstrap_msg(routing_table);
                Vec::new()
            },
            MessageContent::Disconnect => {
                self.disconnect(message.sender);
                Vec::new()
            },
            MessageContent::Connect => self.answer_connect(message.sender),
        }
    }
}

/// Whether everything but the table, the connections, the requests and the candidates is
/// the same in both nodes.
pub open spec fn same_identity(before: Node, after: Node) -> bool {
    &&& after.our_name == before.our_name
    &&& after.message_filter == before.message_filter
    &&& after.params == before.params
    &&& after.step_created == before.step_created
}

/// What welcoming the node `peer` at `step` does.
pub open spec fn joined(before: Node, after: Node, peer: Name, step: u64, out: Seq<Message>) -> bool {
    &&& same_identity(before, after)
    &&& after.routing_table == before.routing_table
    &&& forall|entry: (Name, Candidate)|
        after.candidates@.contains(entry) <==> (entry == (peer, Candidate { step_added: step })
            || (before.candidates@.contains(entry) && entry.0 != peer))
    &&& names_set(after.connections@) == names_set(before.connections@).insert(peer)
    &&& names_set(after.connect_requests@) == names_set(before.connect_requests@).insert(peer)
    &&& out.len() == 2
    &&& out[0] == (Message {
        sender: before.our_name,
        recipient: peer,
        content: MessageContent::Connect,
    })
    &&& out[1].sender == before.our_name
    &&& out[1].recipient == peer
    &&& match out[1].content {
        MessageContent::BootstrapMsg(table) => table@ == before.routing_table@ && table.wf(),
        _ => false,
    }
}

/// What giving up the connection to `peer` does.
pub open spec fn parted(before: Node, after: Node, peer: Name) -> bool {
    &&& same_identity(before, after)
    &&& after.routing_table == before.routing_table
    &&& after.candidates == before.candidates
    &&& names_set(after.connections@) == names_set(before.connections@).remove(peer)
    &&& names_set(after.connect_requests@) == names_set(before.connect_requests@).remove(peer)
}

/// What answering the request of `peer` for a connection does.
pub open spec fn answered(before: Node, after: Node, peer: Name, out: Seq<Message>) -> bool {
    if known_nodes(before.routing_table@.shards).contains(peer) {
        &&& same_identity(before, after)
        &&& after.routing_table == before.routing_table
        &&& after.candidates == before.candidates
        &&& names_set(after.connections@) == names_set(before.connections@).insert(peer)
        &&& names_set(after.connect_requests@) == names_set(before.connect_requests@).insert(peer)
        &&& out == (if names_set(before.connect_requests@).contains(peer) {
            Seq::<Message>::empty()
        } else {
            seq![
                Message {
                    sender: before.our_name,
                    recipient: peer,
                    content: MessageContent::Connect,
                },
            ]
        })
    } else {
        &&& parted(before, after, peer)
        &&& out == seq![
            Message {
                sender: before.our_name,
                recipient: peer,
                content: MessageContent::Disconnect,
            },
        ]
    }
}

/// Whether the node can handle `message`: the votes that it brings can be taken, and the
/// table that it brings is well formed.
pub open spec fn can_handle(node: Node, message: Message) -> bool {
    match message.content {
        MessageContent::VoteMsg(vote) => votes_defined(
            node.routing_table@.shards,
            vote.block_id,
            seq![message.sender],
        ),
        MessageContent::VoteAgreedMsg(vote, voters) => votes_defined(
            node.routing_table@.shards,
            vote.block_id,
            voters@,
        ),
        MessageContent::BootstrapMsg(table) => table.wf(),
        _ => true,
    }
}

/// Whether nothing but the table differs between the two nodes.
pub open spec fn only_table_changed(before: Node, after: Node) -> bool {
    &&& same_identity(before, after)
    &&& after.connections == before.connections
    &&& after.connect_requests == before.connect_requests
    &&& after.candidates == before.candidates
}

/// What handling `message` at `step` does to the node, and what it answers.
pub open spec fn handled(
    before: Node,
    after: Node,
    message: Message,
    step: u64,
    out: Seq<Message>,
) -> bool {
    match message.content {
        MessageContent::NodeJoined => joined(before, after, message.sender, step, out),
        MessageContent::VoteMsg(vote) => {
            &&& only_table_changed(before, after)
            &&& after.routing_table@.our_prefix == before.routing_table@.our_prefix
            &&& after.routing_table@.shards == tallied(
                before.routing_table@.shards,
                vote.block_id,
                seq![message.sender],
            )
            &&& out.len() == 0
        },
        MessageContent::VoteAgreedMsg(vote, voters) => {
            &&& only_table_changed(before, after)
            &&& after.routing_table@.our_prefix == before.routing_table@.our_prefix
            &&& after.routing_table@.shards == tallied(
                before.routing_table@.shards,
                vote.block_id,
                voters@,
            )
            &&& out.len() == 0
        },
        MessageContent::BootstrapMsg(table) => {
            &&& only_table_changed(before, after)
            &&& after.routing_table == table
            &&& out.len() == 0
        },
        MessageContent::Disconnect => parted(before, after, message.sender) && out.len() == 0,
        MessageContent::Connect => answered(before, after, message.sender, out),
    }
}

/// The names in ascending order that make up the finite set `names`.
pub open spec fn ascending(names: Set<Name>) -> Seq<Name> {
    choose|s: Seq<Name>| names_sorted(s) && names_set(s) == names
}

/// Two sorted sequences of the same names are the same sequence.
pub proof fn lemma_ascending_unique(a: Seq<Name>, b: Seq<Name>)
    requires
        names_sorted(a),
        names_sorted(b),
        names_set(a) == names_set(b),
    ensures
        a == b,
    decreases a.len(),
{
    if a.len() == 0 {
        if b.len() > 0 {
            assert(b.contains(b[0]));
            assert(names_set(a).contains(b[0]));
        }
        assert(a =~= b);
    } else {
        assert(a.contains(a[0]));
        assert(names_set(b).contains(a[0]));
        let x = a.last();
        let y = b.last();
        assert(a.contains(x));
        assert(names_set(b).contains(x));
        let j = choose|j: int| 0 <= j < b.len() && b[j] == x;
        assert(b.contains(y));
        assert(names_set(a).contains(y));
        let i = choose|i: int| 0 <= i < a.len() && a[i] == y;
        if i < a.len() - 1 {
            assert(a[i].0 < a[a.len() - 1].0);
        }
        if j < b.len() - 1 {
            assert(b[j].0 < b[b.len() - 1].0);
        }
        assert(x == y);
        let a0 = a.drop_last();
        let b0 = b.drop_last();
        assert forall|name: Name| names_set(a0).contains(name) == names_set(b0).contains(name) by {
            if a0.contains(name) {
                let k = choose|k: int| 0 <= k < a0.len() && a0[k] == name;
                assert(a[k].0 < a[a.len() - 1].0);
                assert(a.contains(name));
                assert(names_set(b).contains(name));
                let m = choose|m: int| 0 <= m < b.len() && b[m] == name;
                assert(b0[m] == name);
            }
            if b0.contains(name) {
                let k = choose|k: int| 0 <= k < b0.len() && b0[k] == name;
                assert(b[k].0 < b[b.len() - 1].0);
                assert(b.contains(name));
                assert(names_set(a).contains(name));
                let m = choose|m: int| 0 <= m < a.len() && a[m] == name;
                assert(a0[m] == name);
            }
        }
        assert(names_set(a0) =~= names_set(b0));
        lemma_ascending_unique(a0, b0);
        assert(a =~= a0.push(x));
        assert(b =~= b0.push(y));
    }
}

/// Sorted names are the ascending sequence of their set.
pub proof fn lemma_is_ascending(s: Seq<Name>)
    requires
        names_sorted(s),
    ensures
        ascending(names_set(s)) == s,
{
    let t = ascending(names_set(s));
    assert(names_sorted(t) && names_set(t) == names_set(s));
    lemma_ascending_unique(t, s);
}

/// What `keep` selects where it marks the names that `wanted` holds of.
proof fn lemma_selected(source: Seq<Name>, keep: Seq<bool>, wanted: spec_fn(Name) -> bool)
    requires
        keep.len() == source.len(),
        forall|k: int| 0 <= k < source.len() ==> #[trigger] keep[k] == wanted(source[k]),
    ensures
        Set::new(|name: Name| selected(source, keep, name)) == Set::new(
            |name: Name| names_set(source).contains(name) && wanted(name),
        ),
{
    assert forall|name: Name|
        selected(source, keep, name) == (names_set(source).contains(name) && wanted(name)) by {
        if selected(source, keep, name) {
            let k = choose|k: int| 0 <= k < source.len() && source[k] == name && #[trigger] keep[k];
            assert(source.contains(name));
        }
        if source.contains(name) && wanted(name) {
            let k = choose|k: int| 0 <= k < source.len() && source[k] == name;
            assert(keep[k] == wanted(source[k]));
            assert(source[k] == name && keep[k]);
        }
    }
    assert(Set::new(|name: Name| selected(source, keep, name)) =~= Set::new(
        |name: Name| names_set(source).contains(name) && wanted(name),
    ));
}

/// The candidates of `s` whose names are not among `gone`.
fn drop_candidates(s: &Vec<(Name, Candidate)>, gone: &Vec<Name>) -> (out: Vec<(Name, Candidate)>)
    requires
        candidates_sorted(s@),
    ensures
        candidates_sorted(out@),
        forall|entry: (Name, Candidate)|
            out@.contains(entry) <==> (s@.contains(entry) && !names_set(gone@).contains(entry.0)),
{
    let mut out: Vec<(Name, Candidate)> = Vec::new();
    let mut i: usize = 0;
    while i < s.len()
        invariant
            i <= s.len(),
            candidates_sorted(s@),
            candidates_sorted(out@),
            forall|j: int|
                0 <= j < out.len() ==> !names_set(gone@).contains((#[trigger] out@[j]).0)
                    && s@.take(i as int).contains(out@[j]),
            forall|k: int|
                0 <= k < i && !names_set(gone@).contains((#[trigger] s@[k]).0) ==> out@.contains(
                    s@[k],
                ),
        decreases s.len() - i,
    {
        let ghost before = out@;
        let entry = s[i];
        if !holds_name(gone, entry.0) {
            out.push(entry);
        }
        proof {
            let after = out@;
            assert forall|j: int| 0 <= j < after.len() implies !names_set(gone@).contains(
                (#[trigger] after[j]).0,
            ) && s@.take(i + 1).contains(after[j]) by {
                if j < before.len() {
                    let k = choose|k: int|
                        0 <= k < s@.take(i as int).len() && s@.take(i as int)[k] == before[j];
                    assert(s@.take(i + 1)[k] == after[j]);
                } else {
                    assert(s@.take(i + 1)[i as int] == after[j]);
                }
            }
            assert forall|a: int, b: int| 0 <= a < b < after.len() implies after[a].0.0
                < after[b].0.0 by {
                if b == before.len() {
                    let k = choose|k: int|
                        0 <= k < s@.take(i as int).len() && s@.take(i as int)[k] == before[a];
                    assert(s@[k].0.0 < s@[i as int].0.0);
                } else {
                    assert(before[a].0.0 < before[b].0.0);
                }
            }
            assert forall|k: int|
                0 <= k < i + 1 && !names_set(gone@).contains((#[trigger] s@[k]).0) implies after.contains(
                s@[k],
            ) by {
                if k < i {
                    let j = choose|j: int| 0 <= j < before.len() && before[j] == s@[k];
                    assert(after[j] == s@[k]);
                } else {
                    assert(after[before.len() as int] == s@[k]);
                }
            }
        }
        i += 1;
    }
    proof {
        assert(s@.take(i as int) =~= s@);
        assert forall|entry: (Name, Candidate)|
            out@.contains(entry) <==> (s@.contains(entry) && !names_set(gone@).contains(
                entry.0,
            )) by {
            if out@.contains(entry) {
                let j = choose|j: int| 0 <= j < out@.len() && out@[j] == entry;
                assert(s@.contains(out@[j]));
            }
            if s@.contains(entry) && !names_set(gone@).contains(entry.0) {
                let k = choose|k: int| 0 <= k < s@.len() && s@[k] == entry;
                assert(out@.contains(s@[k]));
            }
        }
    }
    out
}

/// One message from `our_name` to each of `names`, asking for a connection or ending one.
pub open spec fn link_messages(our_name: Name, names: Seq<Name>, connect: bool) -> Seq<Message> {
    Seq::new(
        names.len(),
        |k: int|
            Message {
                sender: our_name,
                recipient: names[k],
                content: if connect {
                    MessageContent::Connect
                } else {
                    MessageContent::Disconnect
                },
            },
    )
}

/// Adds to `out` one message from `our_name` to each of `names`.
fn push_links(out: &mut Vec<Message>, our_name: Name, names: &Vec<Name>, connect: bool)
    ensures
        final(out)@ == old(out)@ + link_messages(our_name, names@, connect),
{
    let mut i: usize = 0;
    assert(out@ =~= old(out)@ + link_messages(our_name, names@.take(0), connect));
    while i < names.len()
        invariant
            i <= names.len(),
            out@ == old(out)@ + link_messages(our_name, names@.take(i as int), connect),
        decreases names.len() - i,
    {
        let content = if connect {
            MessageContent::Connect
        } else {
            MessageContent::Disconnect
        };
        out.push(Message { sender: our_name, recipient: names[i], content });
        assert(out@ =~= old(out)@ + link_messages(our_name, names@.take(i + 1), connect));
        i += 1;
    }
    assert(names@.take(i as int) =~= names@);
}

/// The connections that are given up at `step`: those to nodes that the table does not know
/// and that are no candidates still waited for.
pub open spec fn given_up(before: Node, after: Node, step: u64) -> Set<Name> {
    Set::new(
        |name: Name|
            names_set(before.connections@).contains(name) && !known_nodes(
                before.routing_table@.shards,
            ).contains(name) && !recent_candidate(
                after.candidates@,
                name,
                before.params.join_timeout,
                step,
            ),
    )
}

/// The nodes that are asked for a connection: the known nodes other than ourselves to which
/// no connection and no request is left.
pub open spec fn asked(before: Node, after: Node, step: u64) -> Set<Name> {
    Set::new(
        |name: Name|
            known_nodes(before.routing_table@.shards).contains(name) && name != before.our_name
                && !names_set(after.connections@).contains(name) && !(names_set(
                before.connect_requests@,
            ).contains(name) && !given_up(before, after, step).contains(name)),
    )
}

/// What bringing the connections up to date at `step` does to the node, and what it sends.
pub open spec fn links_updated(before: Node, after: Node, step: u64, out: Seq<Message>) -> bool {
    &&& same_identity(before, after)
    &&& after.routing_table == before.routing_table
    &&& forall|entry: (Name, Candidate)|
        after.candidates@.contains(entry) <==> (before.candidates@.contains(entry) && !known_nodes(
            before.routing_table@.shards,
        ).contains(entry.0))
    &&& names_set(after.connections@) == names_set(before.connections@).difference(
        given_up(before, after, step),
    )
    &&& names_set(after.connect_requests@) == names_set(before.connect_requests@).difference(
        given_up(before, after, step),
    ).union(asked(before, after, step))
    &&& out == link_messages(before.our_name, ascending(asked(before, after, step)), true)
        + link_messages(before.our_name, ascending(given_up(before, after, step)), false)
}

impl Node {
    /// Brings the connections up to date at `step`: forgets the candidates that the table
    /// knows by now, gives up the connections to nodes that it does not know and that are no
    /// candidates still waited for, and asks every other known node for a connection unless
    /// one is there or asked for. Returns the messages that ask, then those that give up.
    pub fn connects_and_disconnects(&mut self, step: u64) -> (messages: Vec<Message>)
        requires
            old(self).wf(),
        ensures
            final(self).wf(),
            links_updated(*old(self), *final(self), step, messages@),
    {
        let neighbours = self.routing_table.current_nodes();
        let our_name = self.our_name;
        self.candidates = drop_candidates(&self.candidates, &neighbours);
        let ghost known = known_nodes(self.routing_table@.shards);
        let ghost timeout = self.params.join_timeout;
        let ghost candidates = self.candidates@;

        let mut leave: Vec<bool> = Vec::new();
        let mut stay: Vec<bool> = Vec::new();
        let mut i: usize = 0;
        while i < self.connections.len()
            invariant
                i <= self.connections.len(),
                self.wf(),
                leave.len() == i,
                stay.len() == i,
                names_set(neighbours@) == known,
                timeout == self.params.join_timeout,
                candidates == self.candidates@,
                forall|k: int|
                    0 <= k < i ==> #[trigger] leave[k] == (!known.contains(self.connections[k])
                        && !recent_candidate(candidates, self.connections[k], timeout, step)),
                forall|k: int| 0 <= k < i ==> #[trigger] stay[k] == !leave[k],
            decreases self.connections.len() - i,
        {
            let name = self.connections[i];
            assert(self.connections@.contains(name));
            let gone = !holds_name(&neighbours, name) && !self.is_candidate(&name, step);
            leave.push(gone);
            stay.push(!gone);
            i += 1;
        }
        let to_disconnect = select_names(&self.connections, &leave);
        let connections = select_names(&self.connections, &stay);
        let ghost old_connections = self.connections@;
        let ghost old_requests = self.connect_requests@;
        proof {
            lemma_selected(
                old_connections,
                leave@,
                |name: Name| !known.contains(name) && !recent_candidate(candidates, name, timeout, step),
            );
            lemma_selected(
                old_connections,
                stay@,
                |name: Name|
                    !(!known.contains(name) && !recent_candidate(candidates, name, timeout, step)),
            );
        }

        let mut held: Vec<bool> = Vec::new();
        let mut j: usize = 0;
        while j < self.connect_requests.len()
            invariant
                j <= self.connect_requests.len(),
                held.len() == j,
                forall|k: int|
                    0 <= k < j ==> #[trigger] held[k] == !names_set(to_disconnect@).contains(
                        self.connect_requests[k],
                    ),
            decreases self.connect_requests.len() - j,
        {
            held.push(!holds_name(&to_disconnect, self.connect_requests[j]));
            j += 1;
        }
        let mut requests = select_names(&self.connect_requests, &held);
        proof {
            lemma_selected(
                old_requests,
                held@,
                |name: Name| !names_set(to_disconnect@).contains(name),
            );
        }
        let ghost kept_requests = requests@;

        let mut wanted: Vec<bool> = Vec::new();
        let mut k: usize = 0;
        while k < neighbours.len()
            invariant
                k <= neighbours.len(),
                wanted.len() == k,
                forall|m: int|
                    0 <= m < k ==> #[trigger] wanted[m] == (!names_set(connections@).contains(
                        neighbours[m],
                    ) && !names_set(requests@).contains(neighbours[m]) && neighbours[m]
                        != our_name),
            decreases neighbours.len() - k,
        {
            let name = neighbours[k];
            wanted.push(
                !holds_name(&connections, name) && !holds_name(&requests, name) && name != our_name,
            );
            k += 1;
        }
        let to_connect = select_names(&neighbours, &wanted);
        proof {
            lemma_selected(
                neighbours@,
                wanted@,
                |name: Name|
                    !names_set(connections@).contains(name) && !names_set(kept_requests).contains(
                        name,
                    ) && name != our_name,
            );
        }
        add_names(&mut requests, &to_connect);
        self.connections = connections;
        self.connect_requests = requests;
        let mut messages: Vec<Message> = Vec::new();
        push_links(&mut messages, our_name, &to_connect, true);
        push_links(&mut messages, our_name, &to_disconnect, false);
        proof {
            let before = *old(self);
            let after = *self;
            assert(names_set(to_disconnect@) =~= given_up(before, after, step));
            assert(names_set(self.connections@) =~= names_set(old_connections).difference(
                given_up(before, after, step),
            ));
            assert(names_set(kept_requests) =~= names_set(old_requests).difference(
                given_up(before, after, step),
            ));
            assert(names_set(to_connect@) =~= asked(before, after, step));
            lemma_is_ascending(to_connect@);
            lemma_is_ascending(to_disconnect@);
            assert(messages@ =~= link_messages(our_name, to_connect@, true) + link_messages(
                our_name,
                to_disconnect@,
                false,
            ));
        }
        messages
    }

    /// Called once per step: brings the connections up to date and returns the messages
    /// that this asks for.
    pub fn update_state(&mut self, step: u64) -> (messages: Vec<Message>)
        requires
            old(self).wf(),
        ensures
            final(self).wf(),
            links_updated(*old(self), *final(self), step, messages@),
    {
        self.connects_and_disconnects(step)
    }
}

/// Whether the nodes of `nodes` can be proposed one after the other, to be added or, where
/// `gained` is false, to be removed.
pub open spec fn proposals_defined(
    shards: Seq<(Prefix, Seq<BlockModel>)>,
    nodes: Seq<Name>,
    gained: bool,
) -> bool
    decreases nodes.len(),
{
    if nodes.len() == 0 {
        true
    } else {
        proposal_defined(shards, nodes[0], gained) && proposals_defined(
            after_proposal(shards, nodes[0], gained),
            nodes.drop_first(),
            gained,
        )
    }
}

/// The shards after the nodes of `nodes` have been proposed one after the other.
pub open spec fn after_proposals(
    shards: Seq<(Prefix, Seq<BlockModel>)>,
    nodes: Seq<Name>,
    gained: bool,
) -> Seq<(Prefix, Seq<BlockModel>)>
    decreases nodes.len(),
{
    if nodes.len() == 0 {
        shards
    } else {
        after_proposals(after_proposal(shards, nodes[0], gained), nodes.drop_first(), gained)
    }
}

/// The votes for the blocks that proposing the nodes of `nodes` one after the other puts on
/// the chains.
pub open spec fn proposal_votes(
    shards: Seq<(Prefix, Seq<BlockModel>)>,
    nodes: Seq<Name>,
    gained: bool,
) -> Seq<Vote>
    decreases nodes.len(),
{
    if nodes.len() == 0 {
        Seq::empty()
    } else {
        (match proposal_id(shards, nodes[0], gained) {
            Some(id) => seq![Vote { block_id: id }],
            None => Seq::empty(),
        }) + proposal_votes(
            after_proposal(shards, nodes[0], gained),
            nodes.drop_first(),
            gained,
        )
    }
}

/// Whether our own vote for each of `votes` can be taken, one after the other.
pub open spec fn own_votes_defined(
    shards: Seq<(Prefix, Seq<BlockModel>)>,
    votes: Seq<Vote>,
    our_name: Name,
) -> bool
    decreases votes.len(),
{
    if votes.len() == 0 {
        true
    } else {
        votes_defined(shards, votes[0].block_id, seq![our_name]) && own_votes_defined(
            tallied(shards, votes[0].block_id, seq![our_name]),
            votes.drop_first(),
            our_name,
        )
    }
}

/// The shards after our own vote for each of `votes` has been taken.
pub open spec fn after_own_votes(
    shards: Seq<(Prefix, Seq<BlockModel>)>,
    votes: Seq<Vote>,
    our_name: Name,
) -> Seq<(Prefix, Seq<BlockModel>)>
    decreases votes.len(),
{
    if votes.len() == 0 {
        shards
    } else {
        after_own_votes(
            tallied(shards, votes[0].block_id, seq![our_name]),
            votes.drop_first(),
            our_name,
        )
    }
}

/// Whether `part` is one message from `our_name` to each of `names`, each saying `content`.
pub open spec fn sent_to(
    part: Seq<Message>,
    our_name: Name,
    content: MessageContent,
    names: Seq<Name>,
) -> bool {
    part.len() == names.len() && forall|k: int|
        0 <= k < part.len() ==> (#[trigger] part[k]).sender == our_name && part[k].recipient
            == names[k] && same_content(content, part[k].content)
}

/// Whether `out` is what `node` broadcasts of `msgs` at `step`: for each content in turn, one
/// message to each node of its audience, in ascending order.
pub open spec fn broadcasts(
    node: Node,
    msgs: Seq<MessageContent>,
    step: u64,
    out: Seq<Message>,
) -> bool
    decreases msgs.len(),
{
    if msgs.len() == 0 {
        out.len() == 0
    } else {
        let names = ascending(node.audience(msgs.last(), step));
        out.len() >= names.len() && sent_to(
            out.skip(out.len() - names.len()),
            node.our_name,
            msgs.last(),
            names,
        ) && broadcasts(node, msgs.drop_last(), step, out.take(out.len() - names.len()))
    }
}

/// The contents that carry the votes `votes`.
pub open spec fn vote_contents(votes: Seq<Vote>) -> Seq<MessageContent> {
    Seq::new(votes.len(), |k: int| MessageContent::VoteMsg(votes[k]))
}

impl Node {
    /// The nodes that a message of `content` goes to at `step`: a vote goes to the confirmed
    /// members of our own section, anything else to every known node; the candidates that we
    /// vote to add get it too, and we do not.
    pub open spec fn audience(&self, content: MessageContent, step: u64) -> Set<Name> {
        (if content.is_vote() {
            confirmed_members(self.routing_table.own_ledger())
        } else {
            known_nodes(self.routing_table@.shards)
        }).union(Set::new(|name: Name| self.awaits(name, step))).remove(self.our_name)
    }

    /// The candidates that `construct_new_votes` proposes to add at `step`.
    pub open spec fn additions(&self, step: u64) -> Seq<Name> {
        ascending(Set::new(|name: Name| self.awaits(name, step)))
    }

    /// The shards once the additions of `step` have been proposed.
    pub open spec fn shards_with_additions(&self, step: u64) -> Seq<(Prefix, Seq<BlockModel>)> {
        after_proposals(self.routing_table@.shards, self.additions(step), true)
    }

    /// The nodes that `construct_new_votes` proposes to remove at `step`.
    pub open spec fn removals(&self, step: u64) -> Seq<Name> {
        ascending(Set::new(|name: Name| self.lost_in(self.shards_with_additions(step), name)))
    }

    /// Whether every proposal that `construct_new_votes` makes at `step` can be made.
    pub open spec fn new_votes_defined(&self, step: u64) -> bool {
        proposals_defined(self.routing_table@.shards, self.additions(step), true)
            && proposals_defined(self.shards_with_additions(step), self.removals(step), false)
    }

    /// The shards once `construct_new_votes` has made its proposals at `step`.
    pub open spec fn shards_with_new_votes(&self, step: u64) -> Seq<(Prefix, Seq<BlockModel>)> {
        after_proposals(self.shards_with_additions(step), self.removals(step), false)
    }

    /// The votes that `construct_new_votes` returns at `step`.
    pub open spec fn new_votes(&self, step: u64) -> Seq<Vote> {
        proposal_votes(self.routing_table@.shards, self.additions(step), true) + proposal_votes(
            self.shards_with_additions(step),
            self.removals(step),
            false,
        )
    }

    /// Proposes each node of `nodes` to the table, to be added or, where `gained` is false,
    /// to be removed, and adds to `votes` a vote for each block that this puts on a chain.
    /// Stops and returns false at the first proposal that cannot be made.
    fn try_propose_all(&mut self, nodes: &Vec<Name>, gained: bool, votes: &mut Vec<Vote>) -> (done:
        bool)
        requires
            old(self).wf(),
        ensures
            final(self).wf(),
            only_table_changed(*old(self), *final(self)),
            final(self).routing_table@.our_prefix == old(self).routing_table@.our_prefix,
            done == proposals_defined(old(self).routing_table@.shards, nodes@, gained),
            done ==> final(self).routing_table@.shards == after_proposals(
                old(self).routing_table@.shards,
                nodes@,
                gained,
            ),
            done ==> final(votes)@ == old(votes)@ + proposal_votes(
                old(self).routing_table@.shards,
                nodes@,
                gained,
            ),
    {
        let mut i: usize = 0;
        let ghost start = self.routing_table@.shards;
        assert(nodes@.skip(0) =~= nodes@);
        assert(votes@ + proposal_votes(start, nodes@, gained) =~= old(votes)@ + proposal_votes(
            start,
            nodes@,
            gained,
        ));
        while i < nodes.len()
            invariant
                i <= nodes.len(),
                self.wf(),
                only_table_changed(*old(self), *self),
                self.routing_table@.our_prefix == old(self).routing_table@.our_prefix,
                start == old(self).routing_table@.shards,
                proposals_defined(self.routing_table@.shards, nodes@.skip(i as int), gained)
                    == proposals_defined(start, nodes@, gained),
                after_proposals(self.routing_table@.shards, nodes@.skip(i as int), gained)
                    == after_proposals(start, nodes@, gained),
                votes@ + proposal_votes(self.routing_table@.shards, nodes@.skip(i as int), gained)
                    == old(votes)@ + proposal_votes(start, nodes@, gained),
            decreases nodes.len() - i,
        {
            let node = nodes[i];
            let ghost shards = self.routing_table@.shards;
            let ghost so_far = votes@;
            assert(nodes@.skip(i as int)[0] == node);
            assert(nodes@.skip(i as int).drop_first() =~= nodes@.skip(i + 1));
            if !self.routing_table.can_propose(node, gained) {
                assert(nodes@.skip(i as int).len() > 0);
                assert(!proposals_defined(shards, nodes@.skip(i as int), gained));
                return false;
            }
            let proposed = if gained {
                self.routing_table.add_node(node)
            } else {
                self.routing_table.remove_node(node)
            };
            assert(self.routing_table@.shards == after_proposal(shards, node, gained));
            assert(proposed == proposal_id(shards, node, gained));
            match proposed {
                Some(block) => {
                    votes.push(Vote { block_id: block });
                    assert(votes@ + proposal_votes(
                        self.routing_table@.shards,
                        nodes@.skip(i + 1),
                        gained,
                    ) =~= so_far + (seq![Vote { block_id: block }] + proposal_votes(
                        self.routing_table@.shards,
                        nodes@.skip(i + 1),
                        gained,
                    )));
                },
                None => {
                    assert(votes@ + proposal_votes(
                        self.routing_table@.shards,
                        nodes@.skip(i + 1),
                        gained,
                    ) =~= so_far + (Seq::<Vote>::empty() + proposal_votes(
                        self.routing_table@.shards,
                        nodes@.skip(i + 1),
                        gained,
                    )));
                },
            }
            i += 1;
        }
        assert(votes@ + Seq::<Vote>::empty() =~= votes@);
        true
    }

    /// Makes the proposals of `construct_new_votes` as far as they can be made. Returns the
    /// votes where all of them could, and none otherwise.
    fn try_new_votes(&mut self, step: u64) -> (votes: Option<Vec<Vote>>)
        requires
            old(self).wf(),
        ensures
            final(self).wf(),
            only_table_changed(*old(self), *final(self)),
            final(self).routing_table@.our_prefix == old(self).routing_table@.our_prefix,
            votes.is_some() == old(self).new_votes_defined(step),
            votes.is_some() ==> final(self).routing_table@.shards == old(
                self,
            ).shards_with_new_votes(step) && votes.unwrap()@ == old(self).new_votes(step),
    {
        let mut votes: Vec<Vote> = Vec::new();
        let to_add = self.nodes_to_add(step);
        proof {
            lemma_is_ascending(to_add@);
        }
        if !self.try_propose_all(&to_add, true, &mut votes) {
            return None;
        }
        let to_drop = self.nodes_to_drop();
        proof {
            lemma_is_ascending(to_drop@);
            assert(Set::new(|name: Name| self.has_lost(name)) =~= Set::new(
                |name: Name| old(self).lost_in(old(self).shards_with_additions(step), name),
            ));
        }
        if !self.try_propose_all(&to_drop, false, &mut votes) {
            return None;
        }
        assert(votes@ =~= old(self).new_votes(step));
        Some(votes)
    }

    /// A copy of the node.
    pub fn duplicate(&self) -> (node: Node)
        requires
            self.wf(),
        ensures
            node.wf(),
            node.our_name == self.our_name,
            node.routing_table@ == self.routing_table@,
            node.connections@ == self.connections@,
            node.connect_requests@ == self.connect_requests@,
            node.candidates@ == self.candidates@,
            node.message_filter@ == self.message_filter@,
            node.params == self.params,
            node.step_created == self.step_created,
    {
        let mut connections: Vec<Name> = Vec::new();
        let mut i: usize = 0;
        while i < self.connections.len()
            invariant
                i <= self.connections.len(),
                connections@ == self.connections@.take(i as int),
            decreases self.connections.len() - i,
        {
            connections.push(self.connections[i]);
            assert(self.connections@.take(i + 1) =~= self.connections@.take(i as int).push(
                self.connections@[i as int],
            ));
            i += 1;
        }
        assert(self.connections@.take(i as int) =~= self.connections@);
        let mut connect_requests: Vec<Name> = Vec::new();
        let mut j: usize = 0;
        while j < self.connect_requests.len()
            invariant
                j <= self.connect_requests.len(),
                connect_requests@ == self.connect_requests@.take(j as int),
            decreases self.connect_requests.len() - j,
        {
            connect_requests.push(self.connect_requests[j]);
            assert(self.connect_requests@.take(j + 1) =~= self.connect_requests@.take(
                j as int,
            ).push(self.connect_requests@[j as int]));
            j += 1;
        }
        assert(self.connect_requests@.take(j as int) =~= self.connect_requests@);
        let mut candidates: Vec<(Name, Candidate)> = Vec::new();
        let mut k: usize = 0;
        while k < self.candidates.len()
            invariant
                k <= self.candidates.len(),
                candidates@ == self.candidates@.take(k as int),
            decreases self.candidates.len() - k,
        {
            candidates.push(self.candidates[k]);
            assert(self.candidates@.take(k + 1) =~= self.candidates@.take(k as int).push(
                self.candidates@[k as int],
            ));
            k += 1;
        }
        assert(self.candidates@.take(k as int) =~= self.candidates@);
        let mut message_filter: Vec<u64> = Vec::new();
        let mut m: usize = 0;
        while m < self.message_filter.len()
            invariant
                m <= self.message_filter.len(),
                message_filter@ == self.message_filter@.take(m as int),
            decreases self.message_filter.len() - m,
        {
            message_filter.push(self.message_filter[m]);
            assert(self.message_filter@.take(m + 1) =~= self.message_filter@.take(m as int).push(
                self.message_filter@[m as int],
            ));
            m += 1;
        }
        assert(self.message_filter@.take(m as int) =~= self.message_filter@);
        Node {
            our_name: self.our_name,
            routing_table: self.routing_table.duplicate(),
            connections,
            connect_requests,
            candidates,
            message_filter,
            params: NodeParams {
                min_section_size: self.params.min_section_size,
                split_buffer: self.params.split_buffer,
                join_timeout: self.params.join_timeout,
                self_shutdown_timeout: self.params.self_shutdown_timeout,
            },
            step_created: self.step_created,
        }
    }

    /// Whether `add_vote` can take the votes of `voters` for the block of `vote`.
    pub fn can_add_vote(&self, vote: Vote, voters: &Vec<Name>) -> (defined: bool)
        requires
            self.wf(),
        ensures
            defined == votes_defined(self.routing_table@.shards, vote.block_id, voters@),
    {
        self.routing_table.can_add_votes(vote.block_id, voters)
    }

    /// Whether `construct_new_votes` can make its proposals at `step`.
    pub fn can_construct_new_votes(&self, step: u64) -> (defined: bool)
        requires
            self.wf(),
        ensures
            defined == self.new_votes_defined(step),
    {
        let mut trial = self.duplicate();
        proof {
            self.lemma_same_proposals(trial, step);
        }
        trial.try_new_votes(step).is_some()
    }

    /// Whether `broadcast_new_votes` can make its proposals at `step` and take our own vote
    /// for each of them.
    pub fn can_broadcast_new_votes(&self, step: u64) -> (defined: bool)
        requires
            self.wf(),
        ensures
            defined == (self.new_votes_defined(step) && own_votes_defined(
                self.shards_with_new_votes(step),
                self.new_votes(step),
                self.our_name,
            )),
    {
        let mut trial = self.duplicate();
        proof {
            self.lemma_same_proposals(trial, step);
        }
        match trial.try_new_votes(step) {
            Some(votes) => {
                let ghost start = trial.routing_table@.shards;
                let mut i: usize = 0;
                assert(votes@.skip(0) =~= votes@);
                while i < votes.len()
                    invariant
                        i <= votes.len(),
                        trial.wf(),
                        trial.our_name == self.our_name,
                        self.new_votes_defined(step),
                        start == self.shards_with_new_votes(step),
                        votes@ == self.new_votes(step),
                        own_votes_defined(
                            trial.routing_table@.shards,
                            votes@.skip(i as int),
                            self.our_name,
                        ) == own_votes_defined(start, votes@, self.our_name),
                    decreases votes.len() - i,
                {
                    let vote = votes[i];
                    assert(votes@.skip(i as int)[0] == vote);
                    assert(votes@.skip(i as int).drop_first() =~= votes@.skip(i + 1));
                    let mut voters: Vec<Name> = Vec::new();
                    voters.push(self.our_name);
                    assert(voters@ =~= seq![self.our_name]);
                    if !trial.can_add_vote(vote, &voters) {
                        assert(votes@.skip(i as int).len() > 0);
                        assert(!own_votes_defined(
                            trial.routing_table@.shards,
                            votes@.skip(i as int),
                            self.our_name,
                        ));
                        return false;
                    }
                    let _ = trial.add_vote(vote, voters);
                    i += 1;
                }
                true
            },
            None => false,
        }
    }

    /// A node that has the same name, table, connections, candidates and parameters makes
    /// the same proposals.
    proof fn lemma_same_proposals(&self, other: Node, step: u64)
        requires
            other.our_name == self.our_name,
            other.routing_table@ == self.routing_table@,
            other.connections@ == self.connections@,
            other.candidates@ == self.candidates@,
            other.params == self.params,
        ensures
            other.additions(step) == self.additions(step),
            other.shards_with_additions(step) == self.shards_with_additions(step),
            other.removals(step) == self.removals(step),
            other.new_votes_defined(step) == self.new_votes_defined(step),
            other.shards_with_new_votes(step) == self.shards_with_new_votes(step),
            other.new_votes(step) == self.new_votes(step),
    {
        assert(Set::new(|name: Name| other.awaits(name, step)) =~= Set::new(
            |name: Name| self.awaits(name, step),
        ));
        assert(Set::new(|name: Name| other.lost_in(other.shards_with_additions(step), name))
            =~= Set::new(|name: Name| self.lost_in(self.shards_with_additions(step), name)));
    }

    /// Construct new successor blocks based on our view of the network: proposes to add the
    /// candidates that we are connected to and still wait for, then to remove the known nodes
    /// that we are not connected to, and returns a vote for each block that this puts on a
    /// chain.
    pub fn construct_new_votes(&mut self, step: u64) -> (votes: Vec<Vote>)
        requires
            old(self).wf(),
            old(self).new_votes_defined(step),
        ensures
            final(self).wf(),
            only_table_changed(*old(self), *final(self)),
            final(self).routing_table@.our_prefix == old(self).routing_table@.our_prefix,
            final(self).routing_table@.shards == old(self).shards_with_new_votes(step),
            votes@ == old(self).new_votes(step),
    {
        match self.try_new_votes(step) {
            Some(votes) => votes,
            None => Vec::new(),
        }
    }

    /// Create messages for every relevant neighbour for every content in the given vec: for
    /// each content in turn, one message to each node of its audience, in ascending order.
    pub fn broadcast(&self, msgs: Vec<MessageContent>, step: u64) -> (out: Vec<Message>)
        requires
            self.wf(),
        ensures
            broadcasts(*self, msgs@, step, out@),
    {
        let mut out: Vec<Message> = Vec::new();
        let extra = self.nodes_to_add(step);
        let mut i: usize = 0;
        while i < msgs.len()
            invariant
                i <= msgs.len(),
                self.wf(),
                names_sorted(extra@),
                names_set(extra@) == Set::new(|name: Name| self.awaits(name, step)),
                broadcasts(*self, msgs@.take(i as int), step, out@),
            decreases msgs.len() - i,
        {
            let ghost prev = out@;
            let mut recipients = msgs[i].recipients(self.our_name, &self.routing_table);
            add_names(&mut recipients, &extra);
            remove_name(&mut recipients, self.our_name);
            proof {
                assert(names_set(recipients@) =~= self.audience(msgs@[i as int], step));
                lemma_is_ascending(recipients@);
            }
            let mut r: usize = 0;
            while r < recipients.len()
                invariant
                    r <= recipients.len(),
                    i < msgs.len(),
                    out@.len() == prev.len() + r,
                    out@.take(prev.len() as int) == prev,
                    forall|k: int|
                        0 <= k < r ==> (#[trigger] out@[prev.len() + k]).sender == self.our_name
                            && out@[prev.len() + k].recipient == recipients@[k] && same_content(
                            msgs@[i as int],
                            out@[prev.len() + k].content,
                        ),
                decreases recipients.len() - r,
            {
                let ghost before = out@;
                out.push(
                    Message {
                        sender: self.our_name,
                        recipient: recipients[r],
                        content: msgs[i].duplicate(),
                    },
                );
                proof {
                    assert(out@.take(prev.len() as int) =~= before.take(prev.len() as int));
                    assert forall|k: int| 0 <= k < r + 1 implies (#[trigger] out@[prev.len()
                        + k]).sender == self.our_name && out@[prev.len() + k].recipient
                        == recipients@[k] && same_content(
                        msgs@[i as int],
                        out@[prev.len() + k].content,
                    ) by {
                        if k < r {
                            assert(out@[prev.len() + k] == before[prev.len() + k]);
                        }
                    }
                }
                r += 1;
            }
            proof {
                let upto = msgs@.take(i + 1);
                let names = recipients@;
                assert(upto.last() == msgs@[i as int]);
                assert(upto.drop_last() =~= msgs@.take(i as int));
                assert(out@.take(out@.len() - names.len()) =~= prev);
                let part = out@.skip(out@.len() - names.len());
                assert forall|k: int| 0 <= k < part.len() implies (#[trigger] part[k]).sender
                    == self.our_name && part[k].recipient == names[k] && same_content(
                    upto.last(),
                    part[k].content,
                ) by {
                    assert(part[k] == out@[prev.len() + k]);
                }
            }
            i += 1;
        }
        assert(msgs@.take(i as int) =~= msgs@);
        out
    }

    /// Makes the proposals of `step`, votes for each of them ourselves, and returns the
    /// messages that carry the votes to their audience, before the filter for messages
    /// already sent is applied to them.
    pub fn broadcast_new_votes(&mut self, step: u64) -> (to_broadcast: Vec<Message>)
        requires
            old(self).wf(),
            old(self).new_votes_defined(step),
            own_votes_defined(
                old(self).shards_with_new_votes(step),
                old(self).new_votes(step),
                old(self).our_name,
            ),
        ensures
            final(self).wf(),
            only_table_changed(*old(self), *final(self)),
            final(self).routing_table@.our_prefix == old(self).routing_table@.our_prefix,
            final(self).routing_table@.shards == after_own_votes(
                old(self).shards_with_new_votes(step),
                old(self).new_votes(step),
                old(self).our_name,
            ),
            broadcasts(
                *final(self),
                vote_contents(old(self).new_votes(step)),
                step,
                to_broadcast@,
            ),
    {
        let votes = self.construct_new_votes(step);
        let our_name = self.our_name;
        let ghost start = self.routing_table@.shards;
        let mut vote_msgs: Vec<MessageContent> = Vec::new();
        let mut i: usize = 0;
        assert(votes@.skip(0) =~= votes@);
        while i < votes.len()
            invariant
                i <= votes.len(),
                self.wf(),
                our_name == self.our_name,
                only_table_changed(*old(self), *self),
                self.routing_table@.our_prefix == old(self).routing_table@.our_prefix,
                own_votes_defined(self.routing_table@.shards, votes@.skip(i as int), our_name),
                after_own_votes(self.routing_table@.shards, votes@.skip(i as int), our_name)
                    == after_own_votes(start, votes@, our_name),
                vote_msgs@.len() == i,
                forall|k: int| 0 <= k < i ==> #[trigger] vote_msgs@[k] == MessageContent::VoteMsg(
                    votes@[k],
                ),
            decreases votes.len() - i,
        {
            let vote = votes[i];
            assert(votes@.skip(i as int)[0] == vote);
            assert(votes@.skip(i as int).drop_first() =~= votes@.skip(i + 1));
            let mut voters: Vec<Name> = Vec::new();
            voters.push(our_name);
            assert(voters@ =~= seq![our_name]);
            let _ = self.add_vote(vote, voters);
            vote_msgs.push(MessageContent::VoteMsg(vote));
            i += 1;
        }
        assert(vote_msgs@ =~= vote_contents(votes@));
        self.broadcast(vote_msgs, step)
    }
}

} // verus!
