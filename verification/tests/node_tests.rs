use ewok::block::{BlockId, NetworkEvent, Vote};
use ewok::chain::Chain;
use ewok::generate::{construct_chain, construct_chains};
use ewok::message::{prefix_dist, Message, MessageContent};
use ewok::name::{Name, Prefix};
use ewok::node::{Candidate, Node, MESSAGE_FILTER_LEN};
use ewok::params::NodeParams;
use ewok::routing_table::RoutingTable;

const HIGH: u64 = 1u64 << 63;

fn sections() -> Vec<(Prefix, Chain)> {
    construct_chains(&vec![
        (Prefix::short(1, 0), vec![Name(1), Name(2), Name(3)]),
        (Prefix::short(1, 0b1000_0000), vec![Name(HIGH + 1), Name(HIGH + 2)]),
    ])
}

fn node_one() -> Node {
    let table = RoutingTable::from_chains(Name(1), &sections());
    Node::new(Name(1), table, NodeParams::default(), 5)
}

fn link(sender: u64, recipient: u64, connect: bool) -> Message {
    Message {
        sender: Name(sender),
        recipient: Name(recipient),
        content: if connect { MessageContent::Connect } else { MessageContent::Disconnect },
    }
}

#[test]
fn default_params() {
    let params = NodeParams::default();
    assert_eq!(params.min_section_size, 8);
    assert_eq!(params.split_buffer, 1);
    assert_eq!(params.join_timeout, 20);
    assert_eq!(params.self_shutdown_timeout, 100);
}

#[test]
fn founding_chains_are_confirmed() {
    let chain = construct_chain(Prefix::short(1, 0), &vec![Name(1), Name(2)]);
    assert_eq!(chain.len(), 1);
    assert_eq!(chain.as_blocks()[0].event, NetworkEvent::Split(Prefix::short(1, 0)));
    assert_eq!(chain.as_blocks()[0].members, vec![(Name(1), true), (Name(2), true)]);
    assert_eq!(chain.last_valid(), Some(0));
    let chains = sections();
    assert_eq!(chains.len(), 2);
    assert_eq!(chains[1].0, Prefix::short(1, 0b1000_0000));
    assert_eq!(chains[1].1.as_blocks()[0].member_names(), vec![Name(HIGH + 1), Name(HIGH + 2)]);
}

#[test]
fn prefix_distance_is_xor_of_lower_bounds() {
    let a = Prefix::short(2, 0b0100_0000);
    let b = Prefix::short(2, 0b1100_0000);
    assert_eq!(prefix_dist(&a, &b), HIGH);
    assert_eq!(prefix_dist(&a, &a), 0);
}

#[test]
fn votes_go_to_our_section_and_the_rest_to_everyone() {
    let node = node_one();
    let vote = MessageContent::VoteMsg(Vote { block_id: BlockId(NetworkEvent::NodeGained(Name(9))) });
    assert_eq!(vote.recipients(Name(1), &node.routing_table), vec![Name(1), Name(2), Name(3)]);
    assert_eq!(
        MessageContent::NodeJoined.recipients(Name(1), &node.routing_table),
        vec![Name(1), Name(2), Name(3), Name(HIGH + 1), Name(HIGH + 2)]
    );
    assert!(vote.recipients(Name(1), &RoutingTable::new()).is_empty());
}

#[test]
fn new_node_is_connected_to_all_known_nodes() {
    let node = node_one();
    assert_eq!(node.connections, vec![Name(1), Name(2), Name(3), Name(HIGH + 1), Name(HIGH + 2)]);
    assert!(node.connect_requests.is_empty());
    assert!(node.candidates.is_empty());
    assert_eq!(node.step_created(), 5);
    assert_eq!(node.min_split_size(), 9);
    assert_eq!(node.our_current_section(), Some(vec![Name(1), Name(2), Name(3)]));
    assert!(!node.is_disconnected_from(&Name(2)));
    assert!(node.is_disconnected_from(&Name(7)));
    assert!(node.should_be_connected(Name(HIGH + 1)));
    assert!(!node.should_be_connected(Name(7)));
}

#[test]
fn candidates_are_recent_until_the_timeout() {
    let candidate = Candidate { step_added: 10 };
    assert!(candidate.is_recent(20, 30));
    assert!(!candidate.is_recent(20, 31));
    assert!(candidate.is_recent(20, 3));
    assert!(Candidate { step_added: u64::MAX }.is_recent(u64::MAX, u64::MAX));
}

#[test]
fn joining_node_becomes_candidate() {
    let mut node = node_one();
    let join = Message { sender: Name(7), recipient: Name(1), content: MessageContent::NodeJoined };
    let out = node.handle_message(join, 6);
    assert_eq!(out.len(), 2);
    assert_eq!(out[0], link(1, 7, true));
    assert_eq!(out[1].sender, Name(1));
    assert_eq!(out[1].recipient, Name(7));
    assert_eq!(out[1].content, MessageContent::BootstrapMsg(node.routing_table.clone()));
    assert_eq!(node.candidates.len(), 1);
    assert_eq!(node.candidates[0].0, Name(7));
    assert_eq!(node.candidates[0].1.step_added, 6);
    assert!(node.connections.contains(&Name(7)));
    assert_eq!(node.connect_requests, vec![Name(7)]);
    assert!(node.is_candidate(&Name(7), 26));
    assert!(!node.is_candidate(&Name(7), 27));
    assert!(!node.is_candidate(&Name(2), 6));
    assert_eq!(node.nodes_to_add(10), vec![Name(7)]);
    assert!(node.nodes_to_add(27).is_empty());
}

#[test]
fn lost_connections_are_voted_out() {
    let mut node = node_one();
    assert!(node.nodes_to_drop().is_empty());
    let out = node.handle_message(link(3, 1, false), 6);
    assert!(out.is_empty());
    assert_eq!(node.nodes_to_drop(), vec![Name(3)]);
    assert!(node.can_construct_new_votes(7));
    let votes = node.construct_new_votes(7);
    assert_eq!(votes, vec![Vote { block_id: BlockId(NetworkEvent::NodeLost(Name(3))) }]);
    assert!(node.construct_new_votes(7).is_empty());
}

#[test]
fn connect_is_granted_to_known_nodes_only() {
    let mut node = node_one();
    assert_eq!(node.handle_message(link(2, 1, true), 6), vec![link(1, 2, true)]);
    assert_eq!(node.connect_requests, vec![Name(2)]);
    assert!(node.handle_message(link(2, 1, true), 6).is_empty());
    assert_eq!(node.handle_message(link(9, 1, true), 6), vec![link(1, 9, false)]);
    assert!(!node.connections.contains(&Name(9)));
}

#[test]
fn update_state_connects_and_disconnects() {
    let mut node = node_one();
    node.connections = vec![Name(1), Name(2), Name(8), Name(9)];
    node.connect_requests = vec![Name(3), Name(8)];
    node.candidates = vec![(Name(2), Candidate { step_added: 1 }), (Name(9), Candidate { step_added: 4 })];
    let out = node.update_state(10);
    assert_eq!(out, vec![link(1, HIGH + 1, true), link(1, HIGH + 2, true), link(1, 8, false)]);
    assert_eq!(node.connections, vec![Name(1), Name(2), Name(9)]);
    assert_eq!(node.connect_requests, vec![Name(3), Name(HIGH + 1), Name(HIGH + 2)]);
    assert_eq!(node.candidates.len(), 1);
    assert_eq!(node.candidates[0].0, Name(9));
    let later = node.update_state(25);
    assert_eq!(later, vec![link(1, 9, false)]);
}

#[test]
fn votes_in_messages_reach_the_table() {
    let mut node = node_one();
    let vote = Vote { block_id: BlockId(NetworkEvent::NodeGained(Name(4))) };
    let one = Message { sender: Name(2), recipient: Name(1), content: MessageContent::VoteMsg(vote) };
    assert!(node.can_add_vote(vote, &vec![Name(2)]));
    assert!(node.handle_message(one, 6).is_empty());
    let agreed = Message {
        sender: Name(2),
        recipient: Name(1),
        content: MessageContent::VoteAgreedMsg(vote, vec![Name(1), Name(3)]),
    };
    assert!(node.handle_message(agreed, 6).is_empty());
    let next = node.routing_table.add_node(Name(5)).unwrap();
    assert!(node.add_vote(Vote { block_id: next }, vec![Name(1), Name(2), Name(3)]));
    assert_eq!(node.our_current_section(), Some(vec![Name(1), Name(2), Name(3), Name(4)]));
}

#[test]
fn bootstrap_replaces_the_table() {
    let mut node = Node::new(Name(HIGH + 1), RoutingTable::new(), NodeParams::default(), 0);
    assert_eq!(node.our_current_section(), None);
    let table = RoutingTable::from_chains(Name(HIGH + 1), &sections());
    let message = node_one().construct_bootstrap_msg(Name(HIGH + 1));
    assert_eq!(message.sender, Name(1));
    let _ = table;
    assert!(node.handle_message(message, 1).is_empty());
    assert_eq!(node.routing_table.our_prefix(), Prefix::short(1, 0));
    assert_eq!(node.our_current_section(), Some(vec![Name(1), Name(2), Name(3)]));
}

#[test]
fn shutdown_after_timeout_without_section() {
    let node = Node::new(Name(7), RoutingTable::new(), NodeParams::default(), 5);
    assert!(!node.should_shutdown(104));
    assert!(node.should_shutdown(105));
    let mut joined = node_one();
    assert!(!joined.should_shutdown(500));
    joined.connections = vec![Name(2)];
    assert!(joined.should_shutdown(500));
    joined.connections = vec![Name(2), Name(3)];
    assert!(!joined.should_shutdown(500));
}

#[test]
fn broadcast_goes_to_the_audience_without_us() {
    let mut node = node_one();
    let _ = node.handle_message(Message { sender: Name(7), recipient: Name(1), content: MessageContent::NodeJoined }, 6);
    let vote = Vote { block_id: BlockId(NetworkEvent::NodeGained(Name(7))) };
    let out = node.broadcast(vec![MessageContent::VoteMsg(vote), MessageContent::NodeJoined], 7);
    let recipients: Vec<u64> = out.iter().map(|message| message.recipient.0).collect();
    assert_eq!(recipients, vec![2, 3, 7, 2, 3, 7, HIGH + 1, HIGH + 2]);
    assert!(out.iter().all(|message| message.sender == Name(1)));
    assert_eq!(out[0].content, MessageContent::VoteMsg(vote));
    assert_eq!(out[7].content, MessageContent::NodeJoined);
}

#[test]
fn new_votes_are_cast_and_broadcast() {
    let mut node = node_one();
    let _ = node.handle_message(Message { sender: Name(7), recipient: Name(1), content: MessageContent::NodeJoined }, 6);
    assert!(node.can_broadcast_new_votes(7));
    let out = node.broadcast_new_votes(7);
    let vote = Vote { block_id: BlockId(NetworkEvent::NodeGained(Name(7))) };
    assert_eq!(out.len(), 3);
    assert!(out.iter().all(|message| message.content == MessageContent::VoteMsg(vote)));
    let chain_vote = node.routing_table.add_votes(vote.block_id, vec![Name(2)]);
    assert!(chain_vote);
    assert!(node.broadcast_new_votes(8).is_empty());
}

#[test]
fn filter_drops_repeated_messages_but_no_links() {
    let mut node = node_one();
    let vote = MessageContent::VoteMsg(Vote { block_id: BlockId(NetworkEvent::NodeGained(Name(7))) });
    let message = |recipient: u64| Message { sender: Name(1), recipient: Name(recipient), content: vote.clone() };
    let first = node.filter_messages(vec![message(2), message(3), message(2), link(1, 2, true)], &vec![11, 12, 11, 13]);
    assert_eq!(first, vec![message(2), message(3), link(1, 2, true)]);
    assert_eq!(node.message_filter, vec![11, 12, 13]);
    let second = node.filter_messages(vec![message(3), link(1, 2, true)], &vec![12, 13]);
    assert_eq!(second, vec![link(1, 2, true)]);
    assert_eq!(node.message_filter, vec![11, 12, 13, 13]);
}

#[test]
fn filter_forgets_the_oldest_hash_when_full() {
    let mut node = node_one();
    node.message_filter = (0..MESSAGE_FILTER_LEN as u64).collect();
    let vote = MessageContent::VoteMsg(Vote { block_id: BlockId(NetworkEvent::NodeGained(Name(7))) });
    let message = Message { sender: Name(1), recipient: Name(2), content: vote };
    let out = node.filter_messages(vec![message.clone(), message.clone()], &vec![5000, 0]);
    assert_eq!(out.len(), 2);
    assert_eq!(node.message_filter.len(), MESSAGE_FILTER_LEN);
    assert_eq!(node.message_filter[0], 2);
    assert_eq!(node.message_filter[MESSAGE_FILTER_LEN - 1], 0);
}

#[test]
fn guards_report_proposals_that_cannot_be_made() {
    let mut table = RoutingTable::from_chains(Name(1), &sections());
    assert!(table.can_propose(Name(9), false));
    assert_eq!(table.remove_node(Name(9)), Some(BlockId(NetworkEvent::NodeLost(Name(9)))));
    // The chain now ends in the removal of a node that is no member.
    assert!(!table.can_propose(Name(4), true));
    assert!(table.can_propose(Name(9), false));
    assert!(table.can_propose(Name(HIGH + 4), true));
    assert!(!table.can_add_votes(BlockId(NetworkEvent::NodeGained(Name(4))), &vec![Name(2)]));
    assert!(table.can_add_votes(BlockId(NetworkEvent::NodeGained(Name(4))), &vec![Name(HIGH + 2)]));
    assert!(table.can_add_votes(BlockId(NetworkEvent::NodeLost(Name(9))), &vec![Name(2), Name(3)]));
}

#[test]
fn network_has_a_node_for_each_name() {
    let sections = vec![
        (Prefix::short(1, 0), vec![Name(1), Name(2)]),
        (Prefix::short(1, 0b1000_0000), vec![Name(HIGH + 1)]),
    ];
    let nodes = ewok::generate::network_of(&sections, &NodeParams::default());
    let names: Vec<Name> = nodes.iter().map(|entry| entry.0).collect();
    assert_eq!(names, vec![Name(1), Name(2), Name(HIGH + 1)]);
    assert_eq!(nodes[2].1.our_name, Name(HIGH + 1));
    assert_eq!(nodes[2].1.routing_table.our_prefix(), Prefix::short(1, 0b1000_0000));
    assert_eq!(nodes[2].1.our_current_section(), Some(vec![Name(HIGH + 1)]));
    assert_eq!(nodes[0].1.connections, vec![Name(1), Name(2), Name(HIGH + 1)]);
    assert_eq!(nodes[0].1.step_created(), 0);
}

#[test]
fn generated_names_lie_in_their_sections() {
    let low = Prefix::short(1, 0);
    let high = Prefix::short(1, 0b1000_0000);
    let (nodes, table) = ewok::generate::generate_network(&vec![(low, 4), (high, 3)], &NodeParams::default());
    assert!(nodes.len() <= 7);
    assert_eq!(table, RoutingTable::new());
    let in_low = nodes.iter().filter(|entry| low.matches(entry.0)).count();
    let in_high = nodes.iter().filter(|entry| high.matches(entry.0)).count();
    assert_eq!(in_low + in_high, nodes.len());
    assert!(in_low <= 4 && in_high <= 3);
    for (name, node) in nodes.iter() {
        assert_eq!(node.our_name, *name);
        assert!(node.routing_table.our_prefix().matches(*name));
        assert!(node.connections.contains(name));
    }
    // Two draws of sixty-four random bits differ: the words are not a constant.
    let (again, _) = ewok::generate::generate_network(&vec![(low, 4), (high, 3)], &NodeParams::default());
    let first: Vec<Name> = nodes.iter().map(|entry| entry.0).collect();
    let second: Vec<Name> = again.iter().map(|entry| entry.0).collect();
    assert_ne!(first, second);
}
