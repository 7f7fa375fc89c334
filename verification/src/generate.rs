//! Chains for a network of given sections.

use vstd::prelude::*;
use crate::block::{
    insert_name, lemma_names_len, names_set, names_sorted, Block, BlockModel, NetworkEvent,
};
use crate::chain::Chain;
use crate::name::{matched_by, Name, Prefix};
use crate::node::Node;
use crate::params::NodeParams;
use crate::routing_table::{
    distinct_prefixes, known_nodes, retained, section_from, section_of, shards_of, RoutingTable,
};

verus! {

/// The block that stands at the start of the chain of the section `prefix` with the members
/// `names`: a split towards `prefix` that every member has voted for.
pub open spec fn founding_block(prefix: Prefix, names: Seq<Name>) -> BlockModel {
    BlockModel {
        event: NetworkEvent::Split(prefix),
        members: Map::new(|name: Name| names.contains(name), |name: Name| true),
        invalid_votes: Set::empty(),
    }
}

/// The chain of one section with the members `names`, which holds the founding block alone.
pub fn construct_chain(prefix: Prefix, names: &Vec<Name>) -> (chain: Chain)
    requires
        names_sorted(names@),
    ensures
        chain.wf(),
        chain@ == seq![founding_block(prefix, names@)],
{
    let mut members: Vec<(Name, bool)> = Vec::new();
    let mut i: usize = 0;
    while i < names.len()
        invariant
            i <= names.len(),
            members.len() == i,
            forall|k: int| 0 <= k < i ==> #[trigger] members[k] == (names[k], true),
        decreases names.len() - i,
    {
        members.push((names[i], true));
        i += 1;
    }
    let block = Block { event: NetworkEvent::Split(prefix), members, invalid_votes: Vec::new() };
    proof {
        let entries = block.members@;
        assert forall|a: int, b: int| 0 <= a < b < entries.len() implies entries[a].0.0
            < entries[b].0.0 by {
            assert(names@[a].0 < names@[b].0);
        }
        assert forall|name: Name| crate::block::is_member(entries, name) == names@.contains(
            name,
        ) by {
            if crate::block::is_member(entries, name) {
                let k = choose|k: int| 0 <= k < entries.len() && (#[trigger] entries[k]).0 == name;
                assert(names@[k] == name);
            }
            if names@.contains(name) {
                let k = choose|k: int| 0 <= k < names@.len() && names@[k] == name;
                assert(entries[k].0 == name);
            }
        }
        assert forall|name: Name| names@.contains(name) implies crate::block::has_vote(
            entries,
            name,
        ) by {
            let k = choose|k: int| 0 <= k < names@.len() && names@[k] == name;
            assert(entries[k] == (name, true));
        }
        assert(block@.members =~= founding_block(prefix, names@).members);
        assert(block@.invalid_votes =~= Set::empty());
    }
    let mut chain = Chain::new();
    let _ = chain.append(block);
    assert(chain@ =~= seq![founding_block(prefix, names@)]);
    chain
}

/// The chains that describe the given sections: for each section, under its prefix, the
/// chain that holds its founding block alone.
pub fn construct_chains(nodes: &Vec<(Prefix, Vec<Name>)>) -> (chains: Vec<(Prefix, Chain)>)
    requires
        forall|k: int| 0 <= k < nodes@.len() ==> names_sorted((#[trigger] nodes@[k]).1@),
    ensures
        chains@.len() == nodes@.len(),
        forall|k: int|
            0 <= k < nodes@.len() ==> (#[trigger] chains@[k]).0 == nodes@[k].0 && chains@[k].1.wf()
                && chains@[k].1@ == seq![founding_block(nodes@[k].0, nodes@[k].1@)],
{
    let mut chains: Vec<(Prefix, Chain)> = Vec::new();
    let mut i: usize = 0;
    while i < nodes.len()
        invariant
            i <= nodes.len(),
            chains@.len() == i,
            forall|k: int| 0 <= k < nodes@.len() ==> names_sorted((#[trigger] nodes@[k]).1@),
            forall|k: int|
                0 <= k < i ==> (#[trigger] chains@[k]).0 == nodes@[k].0 && chains@[k].1.wf()
                    && chains@[k].1@ == seq![founding_block(nodes@[k].0, nodes@[k].1@)],
        decreases nodes.len() - i,
    {
        let prefix = nodes[i].0;
        let chain = construct_chain(prefix, &nodes[i].1);
        chains.push((prefix, chain));
        i += 1;
    }
    chains
}

/// A random 64-bit word, from `rand::random`. Every word can come back, so nothing is claimed
/// of the one that does. The call fails only where the system offers no source of randomness.
#[verifier::external_body]
fn random_word() -> (word: u64) {
    rand::random::<u64>()
}

/// The shards of a network of the given sections, each with its founding block alone.
pub open spec fn founding_shards(sections: Seq<(Prefix, Vec<Name>)>) -> Seq<
    (Prefix, Seq<BlockModel>),
> {
    Seq::new(
        sections.len(),
        |k: int| (sections[k].0, seq![founding_block(sections[k].0, sections[k].1@)]),
    )
}

/// The names of all sections, section after section.
pub open spec fn all_names(sections: Seq<(Prefix, Vec<Name>)>) -> Seq<Name>
    decreases sections.len(),
{
    if sections.len() == 0 {
        Seq::empty()
    } else {
        all_names(sections.drop_last()) + sections.last().1@
    }
}

/// Whether `node` is the node `name` as it starts at step 0 in the network of `shards`: its
/// table holds its own shard and the neighbours of it, and it is connected to every node
/// that the table knows.
pub open spec fn founded(
    node: Node,
    name: Name,
    shards: Seq<(Prefix, Seq<BlockModel>)>,
    params: NodeParams,
) -> bool {
    &&& node.wf()
    &&& node.our_name == name
    &&& section_of(shards, name).is_some()
    &&& node.routing_table@.our_prefix == shards[section_of(shards, name).unwrap()].0
    &&& node.routing_table@.shards == retained(shards, node.routing_table@.our_prefix)
    &&& names_set(node.connections@) == known_nodes(node.routing_table@.shards)
    &&& node.connect_requests@.len() == 0
    &&& node.candidates@.len() == 0
    &&& node.message_filter@.len() == 0
    &&& node.params == params
    &&& node.step_created == 0
}

/// Whether `nodes` holds one node for each name of `sections`, section after section, each
/// as it starts at step 0 in the network of these sections.
pub open spec fn is_network_of(
    nodes: Seq<(Name, Node)>,
    sections: Seq<(Prefix, Vec<Name>)>,
    params: NodeParams,
) -> bool {
    nodes.len() == all_names(sections).len() && forall|i: int|
        0 <= i < nodes.len() ==> (#[trigger] nodes[i]).0 == all_names(sections)[i] && founded(
            nodes[i].1,
            nodes[i].0,
            founding_shards(sections),
            params,
        )
}

/// Whether `drawn` holds, for each section of `sizes`, names of its prefix in ascending
/// order, no more of them than its size.
pub open spec fn drawn_from(drawn: Seq<(Prefix, Vec<Name>)>, sizes: Seq<(Prefix, usize)>) -> bool {
    drawn.len() == sizes.len() && forall|m: int|
        0 <= m < drawn.len() ==> (#[trigger] drawn[m]).0 == sizes[m].0 && names_sorted(drawn[m].1@)
            && drawn[m].1@.len() <= sizes[m].1 && forall|j: int|
            0 <= j < drawn[m].1@.len() ==> drawn[m].0.matches_spec(#[trigger] drawn[m].1@[j])
}

/// A name that matches the prefix of a shard belongs to a section.
pub proof fn lemma_section_found(
    shards: Seq<(Prefix, Seq<BlockModel>)>,
    name: Name,
    from: int,
    k: int,
)
    requires
        0 <= from <= k < shards.len(),
        shards[k].0.matches_spec(name),
    ensures
        section_from(shards, name, from).is_some(),
    decreases k - from,
{
    if from < k && !shards[from].0.matches_spec(name) {
        lemma_section_found(shards, name, from + 1, k);
    }
}

/// The nodes of a network of the given sections: one node for each name, section after
/// section, each as it starts at step 0.
pub fn network_of(sections: &Vec<(Prefix, Vec<Name>)>, params: &NodeParams) -> (nodes: Vec<
    (Name, Node),
>)
    requires
        forall|k: int| 0 <= k < sections@.len() ==> names_sorted((#[trigger] sections@[k]).1@),
        distinct_prefixes(founding_shards(sections@)),
        forall|k: int, j: int|
            0 <= k < sections@.len() && 0 <= j < sections@[k].1@.len() ==> sections@[k].0.matches_spec(
                #[trigger] sections@[k].1@[j],
            ),
    ensures
        is_network_of(nodes@, sections@, *params),
{
    let chains = construct_chains(sections);
    let ghost shards = founding_shards(sections@);
    assert(shards_of(chains@) =~= shards);
    let mut nodes: Vec<(Name, Node)> = Vec::new();
    let mut k: usize = 0;
    assert(sections@.take(0) =~= Seq::empty());
    while k < sections.len()
        invariant
            k <= sections.len(),
            shards == founding_shards(sections@),
            shards_of(chains@) == shards,
            distinct_prefixes(shards),
            forall|m: int| 0 <= m < chains@.len() ==> (#[trigger] chains@[m]).1.wf(),
            forall|m: int, j: int|
                0 <= m < sections@.len() && 0 <= j < sections@[m].1@.len() ==> sections@[m].0.matches_spec(
                    #[trigger] sections@[m].1@[j],
                ),
            nodes@.len() == all_names(sections@.take(k as int)).len(),
            forall|i: int|
                0 <= i < nodes@.len() ==> (#[trigger] nodes@[i]).0 == all_names(
                    sections@.take(k as int),
                )[i] && founded(nodes@[i].1, nodes@[i].0, shards, *params),
        decreases sections.len() - k,
    {
        let ghost before = all_names(sections@.take(k as int));
        let names = &sections[k].1;
        let mut j: usize = 0;
        assert(names@.take(0) =~= Seq::empty());
        while j < names.len()
            invariant
                j <= names.len(),
                k < sections.len(),
                names@ == sections@[k as int].1@,
                shards == founding_shards(sections@),
                shards_of(chains@) == shards,
                distinct_prefixes(shards),
                forall|m: int| 0 <= m < chains@.len() ==> (#[trigger] chains@[m]).1.wf(),
                forall|m: int, j: int|
                    0 <= m < sections@.len() && 0 <= j < sections@[m].1@.len()
                        ==> sections@[m].0.matches_spec(#[trigger] sections@[m].1@[j]),
                nodes@.len() == before.len() + j,
                forall|i: int|
                    0 <= i < nodes@.len() ==> (#[trigger] nodes@[i]).0 == (before + names@.take(
                        j as int,
                    ))[i] && founded(nodes@[i].1, nodes@[i].0, shards, *params),
            decreases names.len() - j,
        {
            let name = names[j];
            proof {
                assert(sections@[k as int].0.matches_spec(sections@[k as int].1@[j as int]));
                assert(shards[k as int].0 == sections@[k as int].0);
                lemma_section_found(shards, name, 0, k as int);
            }
            let routing_table = RoutingTable::from_chains(name, &chains);
            let node = Node::new(
                name,
                routing_table,
                NodeParams {
                    min_section_size: params.min_section_size,
                    split_buffer: params.split_buffer,
                    join_timeout: params.join_timeout,
                    self_shutdown_timeout: params.self_shutdown_timeout,
                },
                0,
            );
            let ghost earlier = nodes@;
            nodes.push((name, node));
            proof {
                assert(names@.take(j + 1) =~= names@.take(j as int).push(name));
                assert forall|i: int| 0 <= i < nodes@.len() implies (#[trigger] nodes@[i]).0 == (
                before + names@.take(j + 1))[i] && founded(nodes@[i].1, nodes@[i].0, shards, *params) by {
                    if i < earlier.len() {
                        assert(nodes@[i] == earlier[i]);
                        assert((before + names@.take(j as int))[i] == (before + names@.take(
                            j + 1,
                        ))[i]);
                    } else {
                        let at = section_of(shards, name).unwrap();
                        lemma_section_matches(shards, name, 0);
                        assert(chains@[at].0 == shards[at].0);
                        assert((before + names@.take(j + 1))[i] == names@.take(j + 1)[j as int]);
                        assert(nodes@[i].1.params == *params);
                        assert(founded(nodes@[i].1, name, shards, *params));
                    }
                }
            }
            j += 1;
        }
        proof {
            assert(names@.take(j as int) =~= names@);
            assert(sections@.take(k + 1).drop_last() =~= sections@.take(k as int));
            assert(sections@.take(k + 1).last() == sections@[k as int]);
            assert(all_names(sections@.take(k + 1)) == before + names@);
        }
        k += 1;
    }
    assert(sections@.take(k as int) =~= sections@);
    nodes
}

/// Generate a bunch of nodes based on sizes specified for sections: for each section, as
/// many random names of its prefix as its size asks for (fewer where a name is drawn twice),
/// and for each name the node that starts with it. The table that comes with them is that of
/// a node that has no name yet.
pub fn generate_network(sections: &Vec<(Prefix, usize)>, params: &NodeParams) -> (network: (
    Vec<(Name, Node)>,
    RoutingTable,
))
    requires
        forall|k: int| 0 <= k < sections@.len() ==> (#[trigger] sections@[k]).0.wf(),
        forall|i: int, j: int|
            0 <= i < j < sections@.len() ==> (#[trigger] sections@[i]).0 != (
            #[trigger] sections@[j]).0,
        Prefix::empty_spec().covered_by_spec(sections@.map_values(|s: (Prefix, usize)| s.0)),
    ensures
        network.1.wf(),
        network.1@.our_prefix == Prefix::empty_spec(),
        network.1@.shards == seq![(Prefix::empty_spec(), Seq::<BlockModel>::empty())],
        exists|drawn: Seq<(Prefix, Vec<Name>)>| #[trigger]
            drawn_from(drawn, sections@) && is_network_of(network.0@, drawn, *params),
        forall|i: int|
            0 <= i < network.0@.len() ==> (#[trigger] network.0@[i]).1.wf() && network.0@[i].1.our_name
                == network.0@[i].0 && network.0@[i].1.params == *params
                && network.0@[i].1.step_created == 0 && matched_by(
                sections@.map_values(|s: (Prefix, usize)| s.0),
                network.0@[i].0,
            ),
{
    let ghost prefixes = sections@.map_values(|s: (Prefix, usize)| s.0);
    let mut nodes_by_section: Vec<(Prefix, Vec<Name>)> = Vec::new();
    let mut k: usize = 0;
    while k < sections.len()
        invariant
            k <= sections.len(),
            nodes_by_section@.len() == k,
            forall|m: int| 0 <= m < sections@.len() ==> (#[trigger] sections@[m]).0.wf(),
            forall|m: int|
                0 <= m < k ==> (#[trigger] nodes_by_section@[m]).0 == sections@[m].0
                    && names_sorted(nodes_by_section@[m].1@) && nodes_by_section@[m].1@.len()
                    <= sections@[m].1,
            forall|m: int, j: int|
                0 <= m < k && 0 <= j < nodes_by_section@[m].1@.len()
                    ==> nodes_by_section@[m].0.matches_spec(#[trigger] nodes_by_section@[m].1@[j]),
        decreases sections.len() - k,
    {
        let prefix = sections[k].0;
        let size: usize = sections[k].1;
        let mut names: Vec<Name> = Vec::new();
        let mut drawn: usize = 0;
        while drawn < size
            invariant
                drawn <= size,
                prefix.wf(),
                names_sorted(names@),
                names@.len() <= drawn,
                forall|j: int| 0 <= j < names@.len() ==> prefix.matches_spec(#[trigger] names@[j]),
            decreases size - drawn,
        {
            let name = prefix.substituted_in(Name(random_word()));
            let ghost before = names@;
            insert_name(&mut names, name);
            proof {
                lemma_names_len(before);
                lemma_names_len(names@);
                assert forall|j: int| 0 <= j < names@.len() implies prefix.matches_spec(
                    #[trigger] names@[j],
                ) by {
                    assert(names@.contains(names@[j]));
                    assert(names_set(names@).contains(names@[j]));
                    if names@[j] != name {
                        assert(names_set(before).contains(names@[j]));
                        let i = choose|i: int| 0 <= i < before.len() && before[i] == names@[j];
                        assert(prefix.matches_spec(before[i]));
                    }
                }
            }
            drawn += 1;
        }
        let ghost earlier = nodes_by_section@;
        nodes_by_section.push((prefix, names));
        proof {
            assert forall|m: int, j: int|
                0 <= m < k + 1 && 0 <= j < nodes_by_section@[m].1@.len() implies nodes_by_section@[m].0.matches_spec(
                #[trigger] nodes_by_section@[m].1@[j],
            ) by {
                if m < k {
                    assert(nodes_by_section@[m] == earlier[m]);
                }
            }
        }
        k += 1;
    }
    let ghost shards = founding_shards(nodes_by_section@);
    proof {
        assert forall|i: int, j: int| 0 <= i < j < shards.len() implies shards[i].0
            != shards[j].0 by {
            assert(sections@[i].0 != sections@[j].0);
        }
    }
    let nodes = network_of(&nodes_by_section, params);
    proof {
        assert(drawn_from(nodes_by_section@, sections@));
        assert forall|i: int| 0 <= i < nodes@.len() implies matched_by(
            prefixes,
            (#[trigger] nodes@[i]).0,
        ) by {
            let name = nodes@[i].0;
            let at = section_of(shards, name).unwrap();
            lemma_section_matches(shards, name, 0);
            assert(prefixes[at] == shards[at].0);
            assert(prefixes[at].matches_spec(name));
        }
    }
    (nodes, RoutingTable::new())
}

/// The section that a name belongs to is one whose prefix the name matches.
pub proof fn lemma_section_matches(shards: Seq<(Prefix, Seq<BlockModel>)>, name: Name, from: int)
    requires
        0 <= from,
        section_from(shards, name, from).is_some(),
    ensures
        from <= section_from(shards, name, from).unwrap() < shards.len(),
        shards[section_from(shards, name, from).unwrap()].0.matches_spec(name),
    decreases shards.len() - from,
{
    if from < shards.len() && !shards[from].0.matches_spec(name) {
        lemma_section_matches(shards, name, from + 1);
    }
}

} // verus!
