use ewok::block::{Block, BlockId, NetworkEvent};
use ewok::chain::Chain;
use ewok::name::{Name, Prefix};
use ewok::routing_table::RoutingTable;

fn short_name(name: u8) -> Name {
    Name((name as u64) << (64 - 8))
}

fn confirmed_genesis(prefix: Prefix, names: &[Name]) -> Block {
    let mut members: Vec<(Name, bool)> = names.iter().map(|name| (*name, true)).collect();
    members.sort();
    members.dedup();
    Block { event: NetworkEvent::Split(prefix), members, invalid_votes: Vec::new() }
}

fn names_of(block: &Block) -> Vec<Name> {
    block.members.iter().map(|entry| entry.0).collect()
}

const A: Name = Name(10);
const B: Name = Name(20);
const C: Name = Name(30);
const D: Name = Name(40);
const E: Name = Name(50);

fn chain_of_three() -> Chain {
    let mut chain = Chain::new();
    chain.append(confirmed_genesis(Prefix::empty(), &[A, B, C]));
    chain
}

#[test]
fn covering() {
    let mut chain = Chain::new();
    let block1 = chain.append(confirmed_genesis(Prefix::empty(), &[Name(0), short_name(0b10000000)]));
    let block2 = BlockId(NetworkEvent::Split(Prefix::short(1, 0)));
    assert!(!chain.add_vote(block2, short_name(0b10000000)));
    let table = RoutingTable::from_chains(Name(0), &vec![(Prefix::empty(), chain.duplicate())]);
    let expected_current = vec![Name(0), short_name(0b10000000)];
    let _ = block1;
    assert_eq!(expected_current, table.current_nodes());
}

#[test]
fn segment() {
    let b1_members = [Name(0), Name(1), Name(2), Name(3 & (1 << 63)), Name(4 & (1 << 63))];
    let mut chain = Chain::new();
    chain.append(confirmed_genesis(Prefix::empty(), &b1_members));
    let b2_id = BlockId(NetworkEvent::Split(Prefix::short(1, 0)));
    chain.add_vote(b2_id, Name(0));
    chain.add_vote(b2_id, Name(1));
    let b3_id = chain.add_node(Name(5)).unwrap();
    chain.add_vote(b3_id, Name(0));
    chain.add_vote(b3_id, Name(1));
    let expected = vec![(Name(0), false), (Name(1), false), (Name(2), false), (Name(5), false)];
    assert_eq!(chain.last_valid_block().unwrap().apply_event(), expected);
}

#[test]
fn first_vote_on_empty_chain() {
    let mut chain = Chain::new();
    let id1 = chain.add_node(A);
    assert_eq!(id1, Some(BlockId(NetworkEvent::NodeGained(A))));
    assert_eq!(chain.len(), 1);
    // The first block of a ledger has no members, so the vote is kept aside and cannot count.
    assert!(chain.can_add_vote(id1.unwrap()));
    assert!(!chain.add_vote(id1.unwrap(), A));
    assert!(chain.as_blocks()[0].members.is_empty());
    assert_eq!(chain.as_blocks()[0].invalid_votes, vec![A]);
    assert_eq!(chain.last_valid(), None);
    // The block that follows it has A as its one member.
    let id2 = chain.add_node(B).unwrap();
    assert_eq!(chain.as_blocks()[1].members, vec![(A, false)]);
    // Voted on, it moves to the start, where it has no predecessor and so no members.
    assert!(!chain.add_vote(id2, A));
    assert_eq!(chain.as_blocks()[0].event, NetworkEvent::NodeGained(B));
    assert_eq!(chain.as_blocks()[0].invalid_votes, vec![A]);
    assert_eq!(chain.as_blocks()[1].members, vec![(B, false)]);
    assert_eq!(chain.as_blocks()[1].invalid_votes, vec![A]);
}

#[test]
fn single_member_single_vote_is_consensus() {
    let mut block = Block { event: NetworkEvent::NodeGained(B), members: vec![(A, false)], invalid_votes: vec![] };
    assert!(!block.has_consensus());
    block.add_vote(A);
    assert!(block.has_consensus());
}

#[test]
fn fourth_node_needs_three_votes() {
    // The block that admits D is kept by the shard that D joins: once the block before it has
    // gained D, a block of four members needs three votes.
    let mut chain = chain_of_three();
    let gained = chain.add_node(D).unwrap();
    assert!(!chain.add_vote(gained, A));
    assert!(chain.add_vote(gained, B));
    let id = chain.add_node(E).unwrap();
    let pending = chain.get(&id).unwrap();
    assert_eq!(pending.members, vec![(A, false), (B, false), (C, false), (D, false)]);
    assert!(!chain.add_vote(id, A));
    assert!(!chain.add_vote(id, B));
    assert!(!chain.get(&id).unwrap().has_consensus());
    assert!(chain.add_vote(id, C));
    assert!(chain.get(&id).unwrap().has_consensus());
    assert_eq!(chain.last_valid(), Some(2));
}

#[test]
fn tie_is_no_consensus() {
    let block = Block {
        event: NetworkEvent::NodeGained(E),
        members: vec![(A, true), (B, true), (C, false), (D, false)],
        invalid_votes: vec![],
    };
    assert!(!block.has_consensus());
    let empty = Block::genesis(NetworkEvent::NodeGained(A));
    assert!(!empty.has_consensus());
}

#[test]
fn lost_node_that_is_no_member_cannot_be_applied() {
    let mut chain = chain_of_three();
    let pending = chain.add_node(D).unwrap();
    let tail = chain.get(&pending).unwrap();
    let lost = tail.from_event(NetworkEvent::NodeLost(E));
    assert_eq!(names_of(&lost), vec![A, B, C, D]);
    assert!(!lost.event_applies());
    assert!(!chain.can_add_vote(BlockId(NetworkEvent::NodeLost(E))));
    assert!(chain.can_add_vote(BlockId(NetworkEvent::NodeLost(A))));
    assert!(chain.can_add_vote(pending));
}

#[test]
fn add_node_twice_adds_one_block() {
    let mut chain = chain_of_three();
    let first = chain.add_node(D);
    assert_eq!(first, Some(BlockId(NetworkEvent::NodeGained(D))));
    assert_eq!(chain.len(), 2);
    let copy = chain.duplicate();
    assert_eq!(chain.add_node(D), None);
    assert_eq!(chain.len(), 2);
    assert_eq!(chain, copy);
}

#[test]
fn remove_node_on_empty_chain_does_nothing() {
    let mut chain = Chain::new();
    assert_eq!(chain.remove_node(A), None);
    assert_eq!(chain.len(), 0);
}

#[test]
fn remove_node_twice_adds_one_block() {
    let mut chain = chain_of_three();
    assert_eq!(chain.remove_node(A), Some(BlockId(NetworkEvent::NodeLost(A))));
    assert_eq!(chain.remove_node(A), None);
    assert_eq!(chain.len(), 2);
    assert_eq!(names_of(&chain.as_blocks()[1]), vec![A, B, C]);
    assert_eq!(chain.as_blocks()[1].apply_event(), vec![(B, false), (C, false)]);
}

#[test]
fn members_follow_the_block_before() {
    let mut chain = chain_of_three();
    let gained = chain.add_node(D).unwrap();
    let lost = chain.remove_node(A).unwrap();
    chain.add_vote(lost, B);
    chain.add_vote(gained, C);
    chain.add_vote(lost, C);
    let blocks = chain.as_blocks();
    for i in 1..blocks.len() {
        assert_eq!(names_of(&blocks[i]), blocks[i - 1].apply_event().iter().map(|e| e.0).collect::<Vec<Name>>());
    }
}

#[test]
fn voted_block_moves_to_the_frontier() {
    let mut chain = chain_of_three();
    let gained = chain.add_node(D).unwrap();
    let lost = chain.remove_node(A).unwrap();
    assert_eq!(names_of(&chain.as_blocks()[2]), vec![A, B, C, D]);
    assert!(!chain.add_vote(lost, B));
    // The removal now follows the genesis block and the addition follows the removal.
    assert_eq!(chain.as_blocks()[1].event, NetworkEvent::NodeLost(A));
    assert_eq!(chain.as_blocks()[1].members, vec![(A, false), (B, true), (C, false)]);
    assert_eq!(chain.as_blocks()[2].event, NetworkEvent::NodeGained(D));
    assert_eq!(names_of(&chain.as_blocks()[2]), vec![B, C]);
    assert_eq!(chain.get(&gained).unwrap().event, NetworkEvent::NodeGained(D));
    assert!(chain.add_vote(lost, C));
    assert_eq!(chain.last_valid(), Some(1));
}

#[test]
fn vote_for_confirmed_block_only_records() {
    let mut chain = chain_of_three();
    let pending = chain.add_node(D).unwrap();
    let genesis = BlockId(NetworkEvent::Split(Prefix::empty()));
    assert!(!chain.add_vote(genesis, D));
    assert_eq!(chain.as_blocks()[0].invalid_votes, vec![D]);
    assert_eq!(chain.as_blocks()[1].event, pending.into_event());
    assert_eq!(chain.len(), 2);
}

#[test]
fn vote_for_unknown_block_derives_it() {
    let mut chain = chain_of_three();
    let id = BlockId(NetworkEvent::NodeGained(D));
    assert!(chain.get(&id).is_none());
    assert!(!chain.add_vote(id, A));
    assert_eq!(chain.get(&id).unwrap().members, vec![(A, true), (B, false), (C, false)]);
    assert!(chain.add_vote(id, C));
}

#[test]
fn swap_blocks_reports_highest_confirmed() {
    let mut chain = chain_of_three();
    let gained = chain.add_node(D).unwrap();
    let lost = chain.remove_node(A).unwrap();
    chain.add_vote(gained, A);
    chain.add_vote(gained, B);
    assert_eq!(chain.last_valid(), Some(1));
    let _ = lost;
    assert_eq!(chain.swap_blocks(2, 2), None);
    assert_eq!(chain.swap_blocks(1, 1), Some(1));
}

#[test]
fn statuses_can_depend_on_the_order_of_votes() {
    let run = |first: Name, second: Name| {
        let mut chain = chain_of_three();
        let one = chain.add_node(D).unwrap();
        let two = chain.add_node(E).unwrap();
        let order = if first == D { [one, two] } else { [two, one] };
        let _ = second;
        for id in order.iter() {
            chain.add_vote(*id, A);
            chain.add_vote(*id, B);
        }
        (chain.get(&one).unwrap().has_consensus(), chain.get(&two).unwrap().has_consensus())
    };
    assert_eq!(run(D, E), (true, false));
    assert_eq!(run(E, D), (false, true));
}

#[test]
fn votes_for_one_block_commute() {
    let mut one = Block { event: NetworkEvent::NodeGained(E), members: vec![(A, false), (B, false), (C, false)], invalid_votes: vec![] };
    let mut two = one.duplicate();
    for voter in [A, D, B] {
        one.add_vote(voter);
    }
    for voter in [B, A, D] {
        two.add_vote(voter);
    }
    assert_eq!(one, two);
    assert!(one.has_consensus());
    assert_eq!(one.invalid_votes, vec![D]);
}
