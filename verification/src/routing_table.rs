//! A routing table: the view that one node has of the network, with one chain for each shard
//! that it tracks, its own and the neighbours of its own.

use vstd::prelude::*;
use crate::block::{names_set, names_sorted, BlockId, BlockModel, NetworkEvent};
use crate::chain::{
    after_vote, can_propose, holds, last_confirmed, proposed, vote_confirms, vote_defined, Chain,
};
use crate::name::{Name, Prefix};

verus! {

/// The chains of a node, each under the prefix of its shard, and the prefix of its own shard.
#[derive(Clone, Debug, PartialEq, Eq, Hash)]
pub struct RoutingTable {
    our_prefix: Prefix,
    chains: Vec<(Prefix, Chain)>,
}

/// What a routing table is: the prefix of the node's own shard, and the tracked shards in
/// their order, each with its ledger.
pub struct TableModel {
    pub our_prefix: Prefix,
    pub shards: Seq<(Prefix, Seq<BlockModel>)>,
}

/// The shards that a sequence of chains stands for.
pub open spec fn shards_of(chains: Seq<(Prefix, Chain)>) -> Seq<(Prefix, Seq<BlockModel>)> {
    chains.map_values(|entry: (Prefix, Chain)| (entry.0, entry.1@))
}

/// No two shards have the same prefix.
pub open spec fn distinct_prefixes(shards: Seq<(Prefix, Seq<BlockModel>)>) -> bool {
    forall|i: int, j: int| 0 <= i < j < shards.len() ==> shards[i].0 != shards[j].0
}

/// Whether one of the shards has the prefix `prefix`.
pub open spec fn has_shard(shards: Seq<(Prefix, Seq<BlockModel>)>, prefix: Prefix) -> bool {
    exists|k: int| 0 <= k < shards.len() && (#[trigger] shards[k]).0 == prefix
}

/// The position of the shard with the prefix `prefix`, where there is one.
pub open spec fn shard_index(shards: Seq<(Prefix, Seq<BlockModel>)>, prefix: Prefix) -> int {
    choose|k: int| 0 <= k < shards.len() && (#[trigger] shards[k]).0 == prefix
}

/// The position of the first shard from `from` on whose prefix `name` matches.
pub open spec fn section_from(
    shards: Seq<(Prefix, Seq<BlockModel>)>,
    name: Name,
    from: int,
) -> Option<int>
    decreases shards.len() - from,
{
    if from < 0 || from >= shards.len() {
        None
    } else if shards[from].0.matches_spec(name) {
        Some(from)
    } else {
        section_from(shards, name, from + 1)
    }
}

/// The position of the first shard whose prefix `name` matches.
pub open spec fn section_of(shards: Seq<(Prefix, Seq<BlockModel>)>, name: Name) -> Option<int> {
    section_from(shards, name, 0)
}

/// The members of the last confirmed block of a ledger; none where no block is confirmed.
pub open spec fn confirmed_members(ledger: Seq<BlockModel>) -> Set<Name> {
    match last_confirmed(ledger) {
        Some(i) => ledger[i].members.dom(),
        None => Set::empty(),
    }
}

/// The members of the last confirmed blocks of the first `upto` shards.
pub open spec fn nodes_among(shards: Seq<(Prefix, Seq<BlockModel>)>, upto: int) -> Set<Name> {
    Set::new(
        |name: Name|
            exists|k: int| 0 <= k < upto && confirmed_members((#[trigger] shards[k]).1).contains(name),
    )
}

/// The members of the last confirmed blocks of all shards.
pub open spec fn known_nodes(shards: Seq<(Prefix, Seq<BlockModel>)>) -> Set<Name> {
    nodes_among(shards, shards.len() as int)
}

/// Whether a node of the shard `ours` tracks the shard `other`: its own shard and those that
/// differ from it in one bit.
pub open spec fn tracks(ours: Prefix, other: Prefix) -> bool {
    other == ours || other.neighbour_spec(ours)
}

/// The shards of `all` that a node of the shard `ours` tracks, in their order.
pub open spec fn retained(all: Seq<(Prefix, Seq<BlockModel>)>, ours: Prefix) -> Seq<
    (Prefix, Seq<BlockModel>),
>
    decreases all.len(),
{
    if all.len() == 0 {
        Seq::empty()
    } else if tracks(ours, all.last().0) {
        retained(all.drop_last(), ours).push(all.last())
    } else {
        retained(all.drop_last(), ours)
    }
}

/// Whether the vote of `voter` for `id` can be taken: its shard is not tracked, or the chain
/// of its shard can take it.
pub open spec fn cast_defined(
    shards: Seq<(Prefix, Seq<BlockModel>)>,
    id: BlockId,
    voter: Name,
) -> bool {
    match section_of(shards, voter) {
        Some(k) => vote_defined(shards[k].1, id),
        None => true,
    }
}

/// The shards after the vote of `voter` for `id`: the chain of the voter's shard takes it,
/// and nothing changes where that shard is not tracked.
pub open spec fn cast(shards: Seq<(Prefix, Seq<BlockModel>)>, id: BlockId, voter: Name) -> Seq<
    (Prefix, Seq<BlockModel>),
> {
    match section_of(shards, voter) {
        Some(k) => shards.update(k, (shards[k].0, after_vote(shards[k].1, id, voter))),
        None => shards,
    }
}

/// Whether the vote of `voter` for `id` confirms the block in the chain of the voter's shard.
pub open spec fn cast_confirms(
    shards: Seq<(Prefix, Seq<BlockModel>)>,
    id: BlockId,
    voter: Name,
) -> bool {
    match section_of(shards, voter) {
        Some(k) => vote_confirms(shards[k].1, id, voter),
        None => false,
    }
}

/// Whether the votes of `voters` for `id` can be taken one after the other.
pub open spec fn votes_defined(
    shards: Seq<(Prefix, Seq<BlockModel>)>,
    id: BlockId,
    voters: Seq<Name>,
) -> bool
    decreases voters.len(),
{
    if voters.len() == 0 {
        true
    } else {
        cast_defined(shards, id, voters[0]) && votes_defined(
            cast(shards, id, voters[0]),
            id,
            voters.drop_first(),
        )
    }
}

/// The shards after the votes of `voters` for `id`, taken one after the other.
pub open spec fn tallied(
    shards: Seq<(Prefix, Seq<BlockModel>)>,
    id: BlockId,
    voters: Seq<Name>,
) -> Seq<(Prefix, Seq<BlockModel>)>
    decreases voters.len(),
{
    if voters.len() == 0 {
        shards
    } else {
        tallied(cast(shards, id, voters[0]), id, voters.drop_first())
    }
}

/// Whether one of the votes of `voters` for `id`, taken one after the other, confirms the
/// block in the chain that takes it.
pub open spec fn any_confirmed(
    shards: Seq<(Prefix, Seq<BlockModel>)>,
    id: BlockId,
    voters: Seq<Name>,
) -> bool
    decreases voters.len(),
{
    if voters.len() == 0 {
        false
    } else {
        cast_confirms(shards, id, voters[0]) || any_confirmed(
            cast(shards, id, voters[0]),
            id,
            voters.drop_first(),
        )
    }
}

/// The shards after a block for `event` has been proposed to the chain of the shard of `node`.
pub open spec fn shard_proposed(
    shards: Seq<(Prefix, Seq<BlockModel>)>,
    node: Name,
    event: NetworkEvent,
) -> Seq<(Prefix, Seq<BlockModel>)> {
    match section_of(shards, node) {
        Some(k) => shards.update(k, (shards[k].0, proposed(shards[k].1, event))),
        None => shards,
    }
}

impl View for RoutingTable {
    type V = TableModel;

    open spec fn view(&self) -> TableModel {
        TableModel { our_prefix: self.own_prefix(), shards: shards_of(self.held()) }
    }
}

impl RoutingTable {
    /// The prefix of the node's own shard.
    pub closed spec fn own_prefix(&self) -> Prefix {
        self.our_prefix
    }

    /// The tracked chains in their order, each under the prefix of its shard.
    pub closed spec fn held(&self) -> Seq<(Prefix, Chain)> {
        self.chains@
    }

    /// Every chain is well formed, no two shards have the same prefix, the node's own shard
    /// is among them, and every other is a neighbour of it.
    pub open spec fn wf(&self) -> bool {
        &&& forall|k: int| 0 <= k < self.held().len() ==> (#[trigger] self.held()[k]).1.wf()
        &&& distinct_prefixes(self@.shards)
        &&& has_shard(self@.shards, self@.our_prefix)
        &&& forall|k: int|
            0 <= k < self@.shards.len() ==> tracks(self@.our_prefix, (#[trigger] self@.shards[k]).0)
    }

    /// The table of a node that has no name yet: the whole address space as one shard, with
    /// an empty chain.
    pub fn new() -> (table: RoutingTable)
        ensures
            table.wf(),
            table@.our_prefix == Prefix::empty_spec(),
            table@.shards == seq![(Prefix::empty_spec(), Seq::<BlockModel>::empty())],
    {
        let null_prefix = Prefix::empty();
        let mut chains: Vec<(Prefix, Chain)> = Vec::new();
        chains.push((null_prefix, Chain::new()));
        let table = RoutingTable { our_prefix: null_prefix, chains };
        proof {
            assert(table@.shards =~= seq![(null_prefix, Seq::<BlockModel>::empty())]);
            assert(table@.shards[0].0 == null_prefix);
        }
        table
    }

    /// The prefix of the node's own shard.
    pub fn our_prefix(&self) -> (prefix: Prefix)
        ensures
            prefix == self@.our_prefix,
    {
        self.our_prefix
    }

    /// The position of the first tracked shard that `name` belongs to.
    fn section_index(&self, name: Name) -> (found: Option<usize>)
        ensures
            match found {
                Some(k) => section_of(self@.shards, name) == Some(k as int) && k < self@.shards.len(),
                None => section_of(self@.shards, name).is_none(),
            },
    {
        let mut i: usize = 0;
        while i < self.chains.len()
            invariant
                i <= self.chains.len(),
                section_of(self@.shards, name) == section_from(self@.shards, name, i as int),
            decreases self.chains.len() - i,
        {
            if self.chains[i].0.matches(name) {
                return Some(i);
            }
            i += 1;
        }
        None
    }

    /// The prefix of the first tracked shard that `name` belongs to.
    pub fn get_section(&self, name: Name) -> (found: Option<Prefix>)
        ensures
            match found {
                Some(prefix) => section_of(self@.shards, name).is_some() && prefix
                    == self@.shards[section_of(self@.shards, name).unwrap()].0,
                None => section_of(self@.shards, name).is_none(),
            },
    {
        match self.section_index(name) {
            Some(k) => Some(self.chains[k].0),
            None => None,
        }
    }
}

impl RoutingTable {
    /// The table of the node `name` in a network of the shards `chains`: its own shard is the
    /// first whose prefix `name` matches, and it keeps a copy of that chain and of the chains
    /// of the neighbouring shards.
    pub fn from_chains(name: Name, chains: &Vec<(Prefix, Chain)>) -> (table: RoutingTable)
        requires
            forall|k: int| 0 <= k < chains@.len() ==> (#[trigger] chains@[k]).1.wf(),
            distinct_prefixes(shards_of(chains@)),
            section_of(shards_of(chains@), name).is_some(),
        ensures
            table.wf(),
            table@.our_prefix == chains@[section_of(shards_of(chains@), name).unwrap()].0,
            table@.shards == retained(shards_of(chains@), table@.our_prefix),
    {
        let ghost all = shards_of(chains@);
        let mut at: usize = 0;
        while at < chains.len() && !chains[at].0.matches(name)
            invariant
                at <= chains.len(),
                all == shards_of(chains@),
                section_of(all, name) == section_from(all, name, at as int),
                section_of(all, name).is_some(),
            decreases chains.len() - at,
        {
            at += 1;
        }
        let our_prefix = chains[at].0;
        let mut kept: Vec<(Prefix, Chain)> = Vec::new();
        let mut i: usize = 0;
        assert(all.take(0) =~= Seq::empty());
        assert(shards_of(kept@) =~= Seq::empty());
        while i < chains.len()
            invariant
                i <= chains.len(),
                at < chains.len(),
                our_prefix == chains@[at as int].0,
                all == shards_of(chains@),
                distinct_prefixes(all),
                forall|k: int| 0 <= k < chains@.len() ==> (#[trigger] chains@[k]).1.wf(),
                forall|k: int| 0 <= k < kept@.len() ==> (#[trigger] kept@[k]).1.wf(),
                shards_of(kept@) == retained(all.take(i as int), our_prefix),
                forall|k: int|
                    0 <= k < kept@.len() ==> tracks(our_prefix, (#[trigger] kept@[k]).0) && exists|
                        m: int,
                    | 0 <= m < i && (#[trigger] all[m]).0 == kept@[k].0,
                i > at ==> has_shard(shards_of(kept@), our_prefix),
            decreases chains.len() - i,
        {
            let prefix = chains[i].0;
            let ghost before = kept@;
            assert(all.take(i + 1).drop_last() =~= all.take(i as int));
            assert(all.take(i + 1).last() == all[i as int]);
            if prefix == our_prefix || prefix.is_neighbour(&our_prefix) {
                let chain = chains[i].1.duplicate();
                kept.push((prefix, chain));
                proof {
                    assert(shards_of(kept@) =~= shards_of(before).push(all[i as int]));
                    assert forall|k: int| 0 <= k < kept@.len() implies tracks(
                        our_prefix,
                        (#[trigger] kept@[k]).0,
                    ) && exists|m: int| 0 <= m < i + 1 && (#[trigger] all[m]).0 == kept@[k].0 by {
                        if k < before.len() {
                            let m = choose|m: int| 0 <= m < i && (#[trigger] all[m]).0 == before[k].0;
                            assert(all[m].0 == kept@[k].0);
                        } else {
                            assert(all[i as int].0 == kept@[k].0);
                        }
                    }
                    if i >= at {
                        if i == at {
                            assert(shards_of(kept@)[before.len() as int].0 == our_prefix);
                        } else {
                            let m = shard_index(shards_of(before), our_prefix);
                            assert(shards_of(kept@)[m].0 == our_prefix);
                        }
                    }
                }
            } else {
                proof {
                    assert forall|k: int| 0 <= k < kept@.len() implies tracks(
                        our_prefix,
                        (#[trigger] kept@[k]).0,
                    ) && exists|m: int| 0 <= m < i + 1 && (#[trigger] all[m]).0 == kept@[k].0 by {
                        let m = choose|m: int| 0 <= m < i && (#[trigger] all[m]).0 == before[k].0;
                        assert(all[m].0 == kept@[k].0);
                    }
                }
            }
            i += 1;
        }
        let table = RoutingTable { our_prefix, chains: kept };
        proof {
            assert(all.take(i as int) =~= all);
            let shards = table@.shards;
            assert forall|a: int, b: int| 0 <= a < b < shards.len() implies shards[a].0
                != shards[b].0 by {
                assert(kept@[a].0 == shards[a].0);
                assert(kept@[b].0 == shards[b].0);
                lemma_retained_distinct(all, our_prefix);
            }
            assert forall|k: int| 0 <= k < shards.len() implies tracks(
                our_prefix,
                (#[trigger] shards[k]).0,
            ) by {
                assert(kept@[k].0 == shards[k].0);
            }
        }
        table
    }

    /// The members of the last confirmed blocks of all tracked chains, in ascending order.
    pub fn current_nodes(&self) -> (nodes: Vec<Name>)
        requires
            self.wf(),
        ensures
            names_sorted(nodes@),
            names_set(nodes@) == known_nodes(self@.shards),
    {
        let mut nodes: Vec<Name> = Vec::new();
        let mut i: usize = 0;
        assert(names_set(nodes@) =~= nodes_among(self@.shards, 0));
        while i < self.chains.len()
            invariant
                i <= self.chains.len(),
                self.wf(),
                names_sorted(nodes@),
                names_set(nodes@) == nodes_among(self@.shards, i as int),
            decreases self.chains.len() - i,
        {
            let ghost before = names_set(nodes@);
            match self.chains[i].1.last_valid_block() {
                Some(block) => {
                    block.add_members_to(&mut nodes);
                },
                None => {},
            }
            proof {
                let shards = self@.shards;
                let added = confirmed_members(shards[i as int].1);
                assert(names_set(nodes@) =~= before.union(added));
                assert forall|name: Name|
                    nodes_among(shards, i + 1).contains(name) == before.union(added).contains(
                        name,
                    ) by {
                    if nodes_among(shards, i as int).contains(name) {
                        let k = choose|k: int|
                            0 <= k < i && confirmed_members((#[trigger] shards[k]).1).contains(
                                name,
                            );
                        assert(confirmed_members(shards[k].1).contains(name) && k < i + 1);
                    }
                    if nodes_among(shards, i + 1).contains(name) {
                        let k = choose|k: int|
                            0 <= k < i + 1 && confirmed_members((#[trigger] shards[k]).1).contains(
                                name,
                            );
                        if k < i {
                            assert(nodes_among(shards, i as int).contains(name));
                        }
                    }
                    if added.contains(name) {
                        assert(confirmed_members(shards[i as int].1).contains(name));
                    }
                }
                assert(names_set(nodes@) =~= nodes_among(shards, i + 1));
            }
            i += 1;
        }
        nodes
    }

    /// The members of the last confirmed block of the node's own shard, in ascending order;
    /// none where no block of that chain is confirmed.
    pub fn our_section(&self) -> (section: Option<Vec<Name>>)
        requires
            self.wf(),
        ensures
            match section {
                Some(names) => names_sorted(names@) && last_confirmed(self.own_ledger()).is_some()
                    && names_set(names@) == confirmed_members(self.own_ledger()),
                None => last_confirmed(self.own_ledger()).is_none(),
            },
    {
        let mut i: usize = 0;
        while i < self.chains.len()
            invariant
                i <= self.chains.len(),
                self.wf(),
                forall|k: int| 0 <= k < i ==> (#[trigger] self@.shards[k]).0 != self@.our_prefix,
            decreases self.chains.len() - i,
        {
            if self.chains[i].0 == self.our_prefix {
                proof {
                    let shards = self@.shards;
                    assert(shards[i as int].0 == self@.our_prefix);
                    let p = shard_index(shards, self@.our_prefix);
                    if p < i {
                        assert(shards[p].0 != shards[i as int].0);
                    } else if p > i {
                        assert(shards[i as int].0 != shards[p].0);
                    }
                }
                return match self.chains[i].1.last_valid_block() {
                    Some(block) => Some(block.member_names()),
                    None => None,
                };
            }
            i += 1;
        }
        proof {
            let p = shard_index(self@.shards, self@.our_prefix);
            assert(self@.shards[p].0 == self@.our_prefix);
        }
        None
    }

    /// The ledger of the node's own shard.
    pub open spec fn own_ledger(&self) -> Seq<BlockModel> {
        self@.shards[shard_index(self@.shards, self@.our_prefix)].1
    }

    /// Takes the votes of `voters` for the block `block`, one after the other: each goes to
    /// the chain of the first tracked shard that the voter belongs to, and a voter of no
    /// tracked shard is passed over. Returns whether one of the votes confirmed the block in
    /// the chain that took it.
    pub fn add_votes(&mut self, block: BlockId, voters: Vec<Name>) -> (confirmed: bool)
        requires
            old(self).wf(),
            votes_defined(old(self)@.shards, block, voters@),
        ensures
            final(self).wf(),
            final(self)@.our_prefix == old(self)@.our_prefix,
            final(self)@.shards == tallied(old(self)@.shards, block, voters@),
            confirmed == any_confirmed(old(self)@.shards, block, voters@),
    {
        let mut result = false;
        let mut i: usize = 0;
        assert(voters@.skip(0) =~= voters@);
        while i < voters.len()
            invariant
                i <= voters.len(),
                self.wf(),
                self@.our_prefix == old(self)@.our_prefix,
                votes_defined(self@.shards, block, voters@.skip(i as int)),
                tallied(self@.shards, block, voters@.skip(i as int)) == tallied(
                    old(self)@.shards,
                    block,
                    voters@,
                ),
                (result || any_confirmed(self@.shards, block, voters@.skip(i as int)))
                    == any_confirmed(old(self)@.shards, block, voters@),
            decreases voters.len() - i,
        {
            let voter = voters[i];
            assert(voters@.skip(i as int)[0] == voter);
            assert(voters@.skip(i as int).drop_first() =~= voters@.skip(i + 1));
            let newly = self.add_one_vote(block, voter);
            result = result || newly;
            i += 1;
        }
        result
    }

    /// Takes the vote of `voter` for the block `block` in the chain of the voter's shard.
    fn add_one_vote(&mut self, block: BlockId, voter: Name) -> (confirmed: bool)
        requires
            old(self).wf(),
            cast_defined(old(self)@.shards, block, voter),
        ensures
            final(self).wf(),
            final(self)@.our_prefix == old(self)@.our_prefix,
            final(self)@.shards == cast(old(self)@.shards, block, voter),
            confirmed == cast_confirms(old(self)@.shards, block, voter),
    {
        match self.section_index(voter) {
            Some(k) => {
                let ghost before = self@.shards;
                let confirmed = self.chains[k].1.add_vote(block, voter);
                proof {
                    assert(self@.shards =~= before.update(
                        k as int,
                        (before[k as int].0, after_vote(before[k as int].1, block, voter)),
                    ));
                    lemma_same_prefixes(before, self@.shards, self@.our_prefix);
                }
                confirmed
            },
            None => false,
        }
    }

    /// Proposes to the chain of the shard of `node` that `node` be added, and returns the
    /// identity of the new block; none where the shard is not tracked or its chain holds a
    /// block for that event already.
    pub fn add_node(&mut self, node: Name) -> (added: Option<BlockId>)
        requires
            old(self).wf(),
            match section_of(old(self)@.shards, node) {
                Some(k) => can_propose(old(self)@.shards[k].1, NetworkEvent::NodeGained(node)),
                None => true,
            },
        ensures
            final(self).wf(),
            final(self)@.our_prefix == old(self)@.our_prefix,
            final(self)@.shards == shard_proposed(
                old(self)@.shards,
                node,
                NetworkEvent::NodeGained(node),
            ),
            added == (match section_of(old(self)@.shards, node) {
                Some(k) => if holds(
                    old(self)@.shards[k].1,
                    BlockId(NetworkEvent::NodeGained(node)),
                ) {
                    None
                } else {
                    Some(BlockId(NetworkEvent::NodeGained(node)))
                },
                None => None,
            }),
    {
        match self.section_index(node) {
            Some(k) => {
                let ghost before = self@.shards;
                let added = self.chains[k].1.add_node(node);
                proof {
                    assert(self@.shards =~= before.update(
                        k as int,
                        (
                            before[k as int].0,
                            proposed(before[k as int].1, NetworkEvent::NodeGained(node)),
                        ),
                    ));
                    lemma_same_prefixes(before, self@.shards, self@.our_prefix);
                }
                added
            },
            None => None,
        }
    }

    /// Proposes to the chain of the shard of `node` that `node` be removed, and returns the
    /// identity of the new block; none where the shard is not tracked, or its chain is empty
    /// or holds a block for that event already.
    pub fn remove_node(&mut self, node: Name) -> (removed: Option<BlockId>)
        requires
            old(self).wf(),
            match section_of(old(self)@.shards, node) {
                Some(k) => can_propose(old(self)@.shards[k].1, NetworkEvent::NodeLost(node)),
                None => true,
            },
        ensures
            final(self).wf(),
            final(self)@.our_prefix == old(self)@.our_prefix,
            final(self)@.shards == (match section_of(old(self)@.shards, node) {
                Some(k) => if old(self)@.shards[k].1.len() == 0 {
                    old(self)@.shards
                } else {
                    shard_proposed(old(self)@.shards, node, NetworkEvent::NodeLost(node))
                },
                None => old(self)@.shards,
            }),
            removed == (match section_of(old(self)@.shards, node) {
                Some(k) => if old(self)@.shards[k].1.len() == 0 || holds(
                    old(self)@.shards[k].1,
                    BlockId(NetworkEvent::NodeLost(node)),
                ) {
                    None
                } else {
                    Some(BlockId(NetworkEvent::NodeLost(node)))
                },
                None => None,
            }),
    {
        match self.section_index(node) {
            Some(k) => {
                let ghost before = self@.shards;
                let removed = self.chains[k].1.remove_node(node);
                proof {
                    let ledger = if before[k as int].1.len() == 0 {
                        before[k as int].1
                    } else {
                        proposed(before[k as int].1, NetworkEvent::NodeLost(node))
                    };
                    assert(self@.shards =~= before.update(k as int, (before[k as int].0, ledger)));
                    lemma_same_prefixes(before, self@.shards, self@.our_prefix);
                }
                removed
            },
            None => None,
        }
    }

    /// Replaces the whole table by `other`. Nothing of the chains that were held is kept or
    /// reconciled with those of `other`: history that only this table had is lost.
    pub fn merge(&mut self, other: RoutingTable)
        requires
            other.wf(),
        ensures
            final(self).wf(),
            *final(self) == other,
    {
        *self = other;
    }
}

/// Shards with the same prefixes in the same order are distinct, hold the node's own shard
/// and are neighbours of it alike.
proof fn lemma_same_prefixes(
    before: Seq<(Prefix, Seq<BlockModel>)>,
    after: Seq<(Prefix, Seq<BlockModel>)>,
    ours: Prefix,
)
    requires
        before.len() == after.len(),
        forall|k: int| 0 <= k < before.len() ==> (#[trigger] before[k]).0 == after[k].0,
        distinct_prefixes(before),
        has_shard(before, ours),
        forall|k: int| 0 <= k < before.len() ==> tracks(ours, (#[trigger] before[k]).0),
    ensures
        distinct_prefixes(after),
        has_shard(after, ours),
        forall|k: int| 0 <= k < after.len() ==> tracks(ours, (#[trigger] after[k]).0),
{
    assert forall|i: int, j: int| 0 <= i < j < after.len() implies after[i].0 != after[j].0 by {
        assert(before[i].0 != before[j].0);
    }
    let p = shard_index(before, ours);
    assert(before[p].0 == ours);
    assert(after[p].0 == ours);
    assert forall|k: int| 0 <= k < after.len() implies tracks(ours, (#[trigger] after[k]).0) by {
        assert(tracks(ours, before[k].0));
    }
}

/// The shards that are kept of shards with distinct prefixes have distinct prefixes, and
/// each is one of them.
pub proof fn lemma_retained_distinct(all: Seq<(Prefix, Seq<BlockModel>)>, ours: Prefix)
    requires
        distinct_prefixes(all),
    ensures
        distinct_prefixes(retained(all, ours)),
        forall|k: int|
            0 <= k < retained(all, ours).len() ==> has_shard(
                all,
                (#[trigger] retained(all, ours)[k]).0,
            ) && tracks(ours, retained(all, ours)[k].0),
    decreases all.len(),
{
    if all.len() > 0 {
        let front = all.drop_last();
        assert forall|i: int, j: int| 0 <= i < j < front.len() implies front[i].0
            != front[j].0 by {
            assert(all[i].0 != all[j].0);
        }
        lemma_retained_distinct(front, ours);
        let r = retained(all, ours);
        let rf = retained(front, ours);
        assert forall|k: int| 0 <= k < r.len() implies has_shard(all, (#[trigger] r[k]).0)
            && tracks(ours, r[k].0) by {
            if k < rf.len() {
                assert(r[k] == rf[k]);
                let m = shard_index(front, rf[k].0);
                assert(all[m].0 == r[k].0);
            } else {
                assert(all[all.len() - 1].0 == r[k].0);
            }
        }
        assert forall|i: int, j: int| 0 <= i < j < r.len() implies r[i].0 != r[j].0 by {
            if j < rf.len() {
                assert(rf[i].0 != rf[j].0);
            } else {
                assert(r[i] == rf[i]);
                let m = shard_index(front, rf[i].0);
                assert(all[m].0 != all[all.len() - 1].0);
            }
        }
    }
}

/// Votes of voters that belong to no tracked shard change nothing and confirm nothing.
pub proof fn law_untracked_votes_ignored(
    shards: Seq<(Prefix, Seq<BlockModel>)>,
    id: BlockId,
    voters: Seq<Name>,
)
    requires
        forall|k: int| 0 <= k < voters.len() ==> section_of(shards, #[trigger] voters[k]).is_none(),
    ensures
        votes_defined(shards, id, voters),
        tallied(shards, id, voters) == shards,
        !any_confirmed(shards, id, voters),
    decreases voters.len(),
{
    if voters.len() > 0 {
        assert(section_of(shards, voters[0]).is_none());
        let rest = voters.drop_first();
        assert forall|k: int| 0 <= k < rest.len() implies section_of(
            shards,
            #[trigger] rest[k],
        ).is_none() by {
            assert(rest[k] == voters[k + 1]);
        }
        law_untracked_votes_ignored(shards, id, rest);
    }
}

impl RoutingTable {
    /// A copy of the table.
    pub fn duplicate(&self) -> (table: RoutingTable)
        ensures
            table@ == self@,
            self.wf() ==> table.wf(),
    {
        let mut chains: Vec<(Prefix, Chain)> = Vec::new();
        let mut i: usize = 0;
        while i < self.chains.len()
            invariant
                i <= self.chains.len(),
                chains.len() == i,
                forall|k: int|
                    0 <= k < i ==> (#[trigger] chains[k]).0 == self.chains[k].0 && chains[k].1@
                        == self.chains[k].1@ && (self.chains[k].1.wf() ==> chains[k].1.wf()),
            decreases self.chains.len() - i,
        {
            let chain = self.chains[i].1.duplicate();
            chains.push((self.chains[i].0, chain));
            i += 1;
        }
        let table = RoutingTable { our_prefix: self.our_prefix, chains };
        proof {
            assert(table@.shards =~= self@.shards);
            if self.wf() {
                assert forall|k: int| 0 <= k < table.held().len() implies (#[trigger] table.held()[k]).1.wf() by {
                    assert(self.held()[k].1.wf());
                }
            }
        }
        table
    }
}

/// The event that proposes to add `node`, or to remove it.
pub open spec fn membership_event(node: Name, gained: bool) -> NetworkEvent {
    if gained {
        NetworkEvent::NodeGained(node)
    } else {
        NetworkEvent::NodeLost(node)
    }
}

/// Whether `add_node` (or `remove_node`, where `gained` is false) can be called for `node`.
pub open spec fn proposal_defined(
    shards: Seq<(Prefix, Seq<BlockModel>)>,
    node: Name,
    gained: bool,
) -> bool {
    match section_of(shards, node) {
        Some(k) => can_propose(shards[k].1, membership_event(node, gained)),
        None => true,
    }
}

/// The shards after `add_node` (or `remove_node`, where `gained` is false) for `node`.
pub open spec fn after_proposal(
    shards: Seq<(Prefix, Seq<BlockModel>)>,
    node: Name,
    gained: bool,
) -> Seq<(Prefix, Seq<BlockModel>)> {
    match section_of(shards, node) {
        Some(k) => if !gained && shards[k].1.len() == 0 {
            shards
        } else {
            shard_proposed(shards, node, membership_event(node, gained))
        },
        None => shards,
    }
}

/// The identity that `add_node` (or `remove_node`, where `gained` is false) returns for
/// `node`.
pub open spec fn proposal_id(
    shards: Seq<(Prefix, Seq<BlockModel>)>,
    node: Name,
    gained: bool,
) -> Option<BlockId> {
    match section_of(shards, node) {
        Some(k) => if holds(shards[k].1, BlockId(membership_event(node, gained))) || (!gained
            && shards[k].1.len() == 0) {
            None
        } else {
            Some(BlockId(membership_event(node, gained)))
        },
        None => None,
    }
}

impl RoutingTable {
    /// Whether `add_node` (or `remove_node`, where `gained` is false) can be called for
    /// `node`.
    pub fn can_propose(&self, node: Name, gained: bool) -> (defined: bool)
        requires
            self.wf(),
        ensures
            defined == proposal_defined(self@.shards, node, gained),
    {
        let event = if gained {
            NetworkEvent::NodeGained(node)
        } else {
            NetworkEvent::NodeLost(node)
        };
        match self.section_index(node) {
            Some(k) => self.chains[k].1.can_propose(event),
            None => true,
        }
    }

    /// Whether `add_votes` can take the votes of `voters` for `block`.
    pub fn can_add_votes(&self, block: BlockId, voters: &Vec<Name>) -> (defined: bool)
        requires
            self.wf(),
        ensures
            defined == votes_defined(self@.shards, block, voters@),
    {
        let mut trial = self.duplicate();
        let mut i: usize = 0;
        assert(voters@.skip(0) =~= voters@);
        while i < voters.len()
            invariant
                i <= voters.len(),
                trial.wf(),
                votes_defined(trial@.shards, block, voters@.skip(i as int)) == votes_defined(
                    self@.shards,
                    block,
                    voters@,
                ),
            decreases voters.len() - i,
        {
            let voter = voters[i];
            assert(voters@.skip(i as int)[0] == voter);
            assert(voters@.skip(i as int).drop_first() =~= voters@.skip(i + 1));
            let defined = match trial.section_index(voter) {
                Some(k) => trial.chains[k].1.can_add_vote(block),
                None => true,
            };
            if !defined {
                return false;
            }
            let _ = trial.add_one_vote(block, voter);
            i += 1;
        }
        true
    }
}

} // verus!
