use ewok::block::{Block, BlockId, NetworkEvent, Vote};
use ewok::name::{Name, Prefix};

fn block_of(event: NetworkEvent, members: &[(u64, bool)], invalid: &[u64]) -> Block {
    Block {
        event,
        members: members.iter().map(|entry| (Name(entry.0), entry.1)).collect(),
        invalid_votes: invalid.iter().map(|name| Name(*name)).collect(),
    }
}

#[test]
fn genesis_is_empty() {
    let block = Block::genesis(NetworkEvent::NodeGained(Name(7)));
    assert_eq!(block.event, NetworkEvent::NodeGained(Name(7)));
    assert!(block.members.is_empty());
    assert!(block.invalid_votes.is_empty());
    assert_eq!(block.get_id(), BlockId(NetworkEvent::NodeGained(Name(7))));
    assert_eq!(block.get_id().into_event(), NetworkEvent::NodeGained(Name(7)));
    let vote = Vote { block_id: block.get_id() };
    assert_eq!(vote.block_id.0, block.event);
}

#[test]
fn clone_members_resets_votes() {
    let block = block_of(NetworkEvent::Merge(Prefix::empty()), &[(1, true), (2, false), (3, true)], &[9]);
    assert_eq!(block.clone_members(), vec![(Name(1), false), (Name(2), false), (Name(3), false)]);
    assert_eq!(block.apply_event(), block.clone_members());
}

#[test]
fn apply_gained_inserts_in_order() {
    let block = block_of(NetworkEvent::NodeGained(Name(2)), &[(1, true), (3, true)], &[]);
    assert_eq!(block.apply_event(), vec![(Name(1), false), (Name(2), false), (Name(3), false)]);
    let again = block_of(NetworkEvent::NodeGained(Name(3)), &[(1, true), (3, true)], &[]);
    assert_eq!(again.apply_event(), vec![(Name(1), false), (Name(3), false)]);
}

#[test]
fn apply_lost_removes() {
    let block = block_of(NetworkEvent::NodeLost(Name(1)), &[(1, true), (3, true)], &[]);
    assert!(block.event_applies());
    assert_eq!(block.apply_event(), vec![(Name(3), false)]);
    let absent = block_of(NetworkEvent::NodeLost(Name(2)), &[(1, true), (3, true)], &[]);
    assert!(!absent.event_applies());
}

#[test]
fn apply_split_keeps_matching_names() {
    let high = 1u64 << 63;
    let block = block_of(NetworkEvent::Split(Prefix::short(1, 0b1000_0000)), &[(1, true), (2, false), (high, true), (high + 5, false)], &[]);
    assert_eq!(block.apply_event(), vec![(Name(high), false), (Name(high + 5), false)]);
    let low = block_of(NetworkEvent::Split(Prefix::short(1, 0)), &[(1, true), (high, true)], &[]);
    assert_eq!(low.apply_event(), vec![(Name(1), false)]);
}

#[test]
fn add_vote_counts_members_only() {
    let mut block = block_of(NetworkEvent::NodeGained(Name(9)), &[(1, false), (2, false)], &[]);
    block.add_vote(Name(2));
    block.add_vote(Name(7));
    block.add_vote(Name(5));
    block.add_vote(Name(7));
    assert_eq!(block.members, vec![(Name(1), false), (Name(2), true)]);
    assert_eq!(block.invalid_votes, vec![Name(5), Name(7)]);
    assert!(!block.has_consensus());
    block.add_vote(Name(1));
    assert!(block.has_consensus());
}

#[test]
fn adjust_votes_keeps_votes_on_record() {
    let mut block = block_of(NetworkEvent::NodeGained(Name(9)), &[(1, true), (2, false), (3, true)], &[7, 8]);
    block.adjust_votes(vec![(Name(2), false), (Name(3), false), (Name(8), false), (Name(10), false)]);
    assert_eq!(block.members, vec![(Name(2), false), (Name(3), true), (Name(8), true), (Name(10), false)]);
    assert_eq!(block.invalid_votes, vec![Name(1), Name(7)]);
    assert_eq!(block.event, NetworkEvent::NodeGained(Name(9)));
}

#[test]
fn vote_survives_removal_and_return() {
    let mut block = block_of(NetworkEvent::NodeGained(Name(9)), &[(1, true), (2, false)], &[]);
    block.adjust_votes(vec![(Name(2), true)]);
    assert_eq!(block.members, vec![(Name(2), false)]);
    assert_eq!(block.invalid_votes, vec![Name(1)]);
    block.adjust_votes(vec![(Name(1), false), (Name(2), false)]);
    assert_eq!(block.members, vec![(Name(1), true), (Name(2), false)]);
    assert!(block.invalid_votes.is_empty());
}

#[test]
fn derived_blocks_take_the_applied_members() {
    let block = block_of(NetworkEvent::NodeGained(Name(4)), &[(1, true), (2, true)], &[3]);
    let expected = vec![(Name(1), false), (Name(2), false), (Name(4), false)];
    let added = block.node_added(Name(5));
    assert_eq!(added.event, NetworkEvent::NodeGained(Name(5)));
    assert_eq!(added.members, expected);
    assert!(added.invalid_votes.is_empty());
    let removed = block.node_removed(Name(1));
    assert_eq!(removed.event, NetworkEvent::NodeLost(Name(1)));
    assert_eq!(removed.members, expected);
    let split = block.section_split(Prefix::short(1, 0));
    assert_eq!(split.event, NetworkEvent::Split(Prefix::short(1, 0)));
    assert_eq!(split.members, expected);
    let merged = block.section_merge(Prefix::empty());
    assert_eq!(merged.event, NetworkEvent::Merge(Prefix::empty()));
    assert_eq!(merged.members, expected);
    assert_eq!(block.from_event(NetworkEvent::NodeLost(Name(2))).members, expected);
}

#[test]
fn member_names_are_the_keys() {
    let block = block_of(NetworkEvent::NodeGained(Name(4)), &[(1, true), (2, false)], &[3]);
    assert_eq!(block.member_names(), vec![Name(1), Name(2)]);
    let mut names = vec![Name(0), Name(2), Name(5)];
    block.add_members_to(&mut names);
    assert_eq!(names, vec![Name(0), Name(1), Name(2), Name(5)]);
}

#[test]
fn prefix_matches_leading_bits() {
    let high = 1u64 << 63;
    assert!(Prefix::empty().matches(Name(0)));
    assert!(Prefix::empty().matches(Name(u64::MAX)));
    let one = Prefix::short(1, 0b1000_0000);
    assert_eq!(one.bit_count(), 1);
    assert!(one.matches(Name(high)));
    assert!(one.matches(Name(u64::MAX)));
    assert!(!one.matches(Name(high - 1)));
    let two = Prefix::short(2, 0b0100_0000);
    assert!(two.matches(Name(1u64 << 62)));
    assert!(!two.matches(Name(high)));
    assert_eq!(two.lower_bound(), Name(1u64 << 62));
    assert_eq!(Prefix::short(2, 0b0111_1111), two);
    assert_eq!(Prefix::new(64, Name(12345)).lower_bound(), Name(12345));
    assert_eq!(Prefix::new(200, Name(12345)).bit_count(), 64);
    assert!(Prefix::new(64, Name(12345)).matches(Name(12345)));
    assert!(!Prefix::new(64, Name(12345)).matches(Name(12344)));
}

#[test]
fn neighbours_differ_in_one_bit() {
    let zero = Prefix::short(1, 0);
    let one = Prefix::short(1, 0b1000_0000);
    let zero_one = Prefix::short(2, 0b0100_0000);
    let one_one = Prefix::short(2, 0b1100_0000);
    assert!(zero.is_neighbour(&one));
    assert!(one.is_neighbour(&zero));
    assert!(!zero.is_neighbour(&zero));
    assert!(!zero.is_neighbour(&zero_one));
    assert!(zero.is_compatible(&zero_one));
    assert!(one.is_neighbour(&zero_one));
    assert!(!zero_one.is_neighbour(&Prefix::short(2, 0b1000_0000)));
    assert!(zero_one.is_neighbour(&one_one));
    assert!(!Prefix::empty().is_neighbour(&zero));
    assert!(Prefix::empty().is_compatible(&zero));
    assert!(!zero.is_compatible(&one));
}

#[test]
fn substituted_name_matches_the_prefix() {
    let prefix = Prefix::short(3, 0b1010_0000);
    let name = prefix.substituted_in(Name(0x1234_5678_9abc_def0));
    assert_eq!(name, Name(0xb234_5678_9abc_def0));
    assert!(prefix.matches(name));
    assert_eq!(Prefix::empty().substituted_in(Name(77)), Name(77));
    assert_eq!(Prefix::new(64, Name(5)).substituted_in(Name(77)), Name(5));
}

#[test]
fn pushed_prefix_has_one_more_bit() {
    let one = Prefix::empty().pushed(true);
    assert_eq!(one, Prefix::short(1, 0b1000_0000));
    assert_eq!(one.pushed(false), Prefix::short(2, 0b1000_0000));
    assert_eq!(one.pushed(true), Prefix::short(2, 0b1100_0000));
    assert_eq!(Prefix::empty().pushed(false), Prefix::short(1, 0));
}

#[test]
fn covering_prefixes() {
    let whole = Prefix::empty();
    let zero = Prefix::short(1, 0);
    let one = Prefix::short(1, 0b1000_0000);
    let one_zero = Prefix::short(2, 0b1000_0000);
    let one_one = Prefix::short(2, 0b1100_0000);
    assert!(whole.is_covered_by(&vec![whole]));
    assert!(whole.is_covered_by(&vec![zero, one]));
    assert!(whole.is_covered_by(&vec![one_one, zero, one_zero]));
    assert!(!whole.is_covered_by(&vec![zero, one_one]));
    assert!(!whole.is_covered_by(&vec![]));
    assert!(one.is_covered_by(&vec![one_zero, one_one]));
    assert!(one_zero.is_covered_by(&vec![one]));
    assert!(!one.is_covered_by(&vec![zero, one_zero]));
    assert!(Prefix::new(64, Name(9)).is_covered_by(&vec![zero]));
    assert!(!Prefix::new(64, Name(9)).is_covered_by(&vec![one]));
}
