use ewok::block::{Block, BlockId, NetworkEvent};
use ewok::chain::Chain;
use ewok::name::{Name, Prefix};
use ewok::routing_table::RoutingTable;

const HIGH: u64 = 1u64 << 63;

fn shard(prefix: Prefix, names: &[u64]) -> (Prefix, Chain) {
    let block = Block {
        event: NetworkEvent::Split(prefix),
        members: names.iter().map(|name| (Name(*name), true)).collect(),
        invalid_votes: Vec::new(),
    };
    let mut chain = Chain::new();
    chain.append(block);
    (prefix, chain)
}

fn network() -> Vec<(Prefix, Chain)> {
    vec![
        shard(Prefix::short(2, 0b0000_0000), &[1, 2, 3]),
        shard(Prefix::short(2, 0b0100_0000), &[HIGH / 2 + 1, HIGH / 2 + 2]),
        shard(Prefix::short(2, 0b1000_0000), &[HIGH + 1, HIGH + 2, HIGH + 3]),
        shard(Prefix::short(2, 0b1100_0000), &[HIGH + HIGH / 2 + 1]),
    ]
}

#[test]
fn new_table_is_one_empty_shard() {
    let table = RoutingTable::new();
    assert_eq!(table.our_prefix(), Prefix::empty());
    assert_eq!(table.our_section(), None);
    assert!(table.current_nodes().is_empty());
    assert_eq!(table.get_section(Name(77)), Some(Prefix::empty()));
}

#[test]
fn from_chains_keeps_own_shard_and_neighbours() {
    let table = RoutingTable::from_chains(Name(2), &network());
    assert_eq!(table.our_prefix(), Prefix::short(2, 0));
    assert_eq!(table.our_section(), Some(vec![Name(1), Name(2), Name(3)]));
    assert_eq!(
        table.current_nodes(),
        vec![Name(1), Name(2), Name(3), Name(HIGH / 2 + 1), Name(HIGH / 2 + 2), Name(HIGH + 1), Name(HIGH + 2), Name(HIGH + 3)]
    );
    assert_eq!(table.get_section(Name(HIGH + 9)), Some(Prefix::short(2, 0b1000_0000)));
    assert_eq!(table.get_section(Name(HIGH + HIGH / 2 + 1)), None);
}

#[test]
fn votes_from_untracked_shard_are_ignored() {
    let mut table = RoutingTable::from_chains(Name(2), &network());
    let before = table.clone();
    let id = BlockId(NetworkEvent::NodeGained(Name(5)));
    assert!(!table.add_votes(id, vec![Name(HIGH + HIGH / 2 + 1), Name(HIGH + HIGH / 2 + 7)]));
    assert_eq!(table, before);
}

#[test]
fn add_votes_reports_new_consensus() {
    let mut table = RoutingTable::from_chains(Name(2), &network());
    let id = table.add_node(Name(5)).unwrap();
    assert_eq!(id, BlockId(NetworkEvent::NodeGained(Name(5))));
    assert_eq!(table.add_node(Name(5)), None);
    assert!(!table.add_votes(id, vec![Name(1)]));
    assert!(table.add_votes(id, vec![Name(HIGH + HIGH / 2 + 1), Name(2), Name(3)]));
    assert!(!table.add_votes(id, vec![Name(1)]));
    assert_eq!(table.our_section(), Some(vec![Name(1), Name(2), Name(3)]));
    let next = table.add_node(Name(6)).unwrap();
    assert!(table.add_votes(next, vec![Name(1), Name(2), Name(3)]));
    assert_eq!(table.our_section(), Some(vec![Name(1), Name(2), Name(3), Name(5)]));
}

#[test]
fn nodes_of_untracked_shards_are_not_added() {
    let mut table = RoutingTable::from_chains(Name(2), &network());
    let before = table.clone();
    assert_eq!(table.add_node(Name(HIGH + HIGH / 2 + 5)), None);
    assert_eq!(table.remove_node(Name(HIGH + HIGH / 2 + 1)), None);
    assert_eq!(table, before);
}

#[test]
fn remove_node_goes_to_its_shard() {
    let mut table = RoutingTable::from_chains(Name(2), &network());
    let id = table.remove_node(Name(HIGH + 2)).unwrap();
    assert_eq!(id, BlockId(NetworkEvent::NodeLost(Name(HIGH + 2))));
    assert_eq!(table.remove_node(Name(HIGH + 2)), None);
    assert!(!table.add_votes(id, vec![Name(HIGH + 1)]));
    assert!(table.add_votes(id, vec![Name(HIGH + 3)]));
    let mut empty = RoutingTable::new();
    assert_eq!(empty.remove_node(Name(1)), None);
}

#[test]
fn merge_replaces_the_table() {
    let mut table = RoutingTable::new();
    let other = RoutingTable::from_chains(Name(HIGH + 1), &network());
    table.merge(other.clone());
    assert_eq!(table, other);
    assert_eq!(table.our_prefix(), Prefix::short(2, 0b1000_0000));
}
