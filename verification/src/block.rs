//! A block: one membership-changing event and the tally of votes for it.

use vstd::prelude::*;
use crate::name::{Name, Prefix};

verus! {

/// A change to the membership of a shard.
#[derive(Clone, Copy, Debug, PartialEq, Eq, Structural, PartialOrd, Ord, Hash)]
pub enum NetworkEvent {
    NodeGained(Name),
    NodeLost(Name),
    Merge(Prefix),
    Split(Prefix),
}

/// The identity of a block: its event and nothing else.
#[derive(Clone, Copy, Debug, PartialEq, Eq, Structural, PartialOrd, Ord, Hash)]
pub struct BlockId(pub NetworkEvent);

/// A vote for the block of the given identity.
#[derive(Clone, Copy, Debug, PartialEq, Eq, Structural, PartialOrd, Ord, Hash)]
pub struct Vote {
    pub block_id: BlockId,
}

/// An event with its tally. `members` is ordered by name and holds each name once, with
/// whether it has voted; `invalid_votes` is ordered too and holds the voters that are not
/// members.
#[derive(Clone, Debug, PartialEq, Eq, Hash)]
pub struct Block {
    pub event: NetworkEvent,
    pub members: Vec<(Name, bool)>,
    pub invalid_votes: Vec<Name>,
}

/// What a block is: its event, the map from each member to whether it voted, and the set of
/// voters outside the membership.
pub struct BlockModel {
    pub event: NetworkEvent,
    pub members: Map<Name, bool>,
    pub invalid_votes: Set<Name>,
}

/// Names in strictly ascending order.
pub open spec fn names_sorted(s: Seq<Name>) -> bool {
    forall|i: int, j: int| 0 <= i < j < s.len() ==> s[i].0 < s[j].0
}

/// Entries in strictly ascending order of their names.
pub open spec fn entries_sorted(s: Seq<(Name, bool)>) -> bool {
    forall|i: int, j: int| 0 <= i < j < s.len() ==> s[i].0.0 < s[j].0.0
}

/// Whether some entry of `s` is for `name`.
pub open spec fn is_member(s: Seq<(Name, bool)>, name: Name) -> bool {
    exists|i: int| 0 <= i < s.len() && (#[trigger] s[i]).0 == name
}

/// Whether some entry of `s` records a vote of `name`.
pub open spec fn has_vote(s: Seq<(Name, bool)>, name: Name) -> bool {
    exists|i: int| 0 <= i < s.len() && #[trigger] s[i] == (name, true)
}

/// The map that a sequence of entries stands for.
pub open spec fn entries_map(s: Seq<(Name, bool)>) -> Map<Name, bool> {
    Map::new(|name: Name| is_member(s, name), |name: Name| has_vote(s, name))
}

/// The set that a sequence of names stands for.
pub open spec fn names_set(s: Seq<Name>) -> Set<Name> {
    Set::new(|name: Name| s.contains(name))
}

/// The number of entries that record a vote.
pub open spec fn vote_count(s: Seq<(Name, bool)>) -> nat
    decreases s.len(),
{
    if s.len() == 0 {
        0
    } else {
        vote_count(s.drop_last()) + (if s.last().1 { 1nat } else { 0nat })
    }
}

/// The map with the given keys, each unvoted.
pub open spec fn unvoted(keys: Set<Name>) -> Map<Name, bool> {
    Map::new(|name: Name| keys.contains(name), |name: Name| false)
}

impl BlockModel {
    /// Whether `name` is a member whose vote counts.
    pub open spec fn counts(self, name: Name) -> bool {
        self.members.dom().contains(name) && self.members[name]
    }

    /// Whether a vote of `name` is on record, counted or not.
    pub open spec fn has_voted(self, name: Name) -> bool {
        self.counts(name) || self.invalid_votes.contains(name)
    }

    /// The members whose vote counts.
    pub open spec fn voters(self) -> Set<Name> {
        Set::new(|name: Name| self.counts(name))
    }

    /// A strict majority of the members has voted.
    pub open spec fn has_consensus(self) -> bool {
        2 * self.voters().len() > self.members.dom().len()
    }

    /// Whether the event can be applied to the members: a lost node must be among them.
    pub open spec fn event_applies(self) -> bool {
        match self.event {
            NetworkEvent::NodeLost(name) => self.members.dom().contains(name),
            _ => true,
        }
    }

    /// The names that are members once the event has been applied.
    pub open spec fn applied(self) -> Set<Name> {
        match self.event {
            NetworkEvent::NodeGained(name) => self.members.dom().insert(name),
            NetworkEvent::NodeLost(name) => self.members.dom().remove(name),
            NetworkEvent::Split(prefix) => Set::new(
                |name: Name| self.members.dom().contains(name) && prefix.matches_spec(name),
            ),
            NetworkEvent::Merge(_) => self.members.dom(),
        }
    }

    /// The block with membership `keys`: every vote on record is kept, and counts exactly
    /// where its voter is in `keys`.
    pub open spec fn adjusted(self, keys: Set<Name>) -> BlockModel {
        BlockModel {
            event: self.event,
            members: Map::new(|name: Name| keys.contains(name), |name: Name| self.has_voted(name)),
            invalid_votes: Set::new(|name: Name| !keys.contains(name) && self.has_voted(name)),
        }
    }

    /// The block after a vote of `voter`: counted if it is a member, kept aside if not.
    pub open spec fn with_vote(self, voter: Name) -> BlockModel {
        if self.members.dom().contains(voter) {
            BlockModel { members: self.members.insert(voter, true), ..self }
        } else {
            BlockModel { invalid_votes: self.invalid_votes.insert(voter), ..self }
        }
    }

    /// The block for `event` that follows this one: its members are those that this block's
    /// event produces, none of which has voted.
    pub open spec fn derived(self, event: NetworkEvent) -> BlockModel {
        BlockModel { event, members: unvoted(self.applied()), invalid_votes: Set::empty() }
    }

    /// The first block of a ledger: `event` with no members and no votes.
    pub open spec fn genesis(event: NetworkEvent) -> BlockModel {
        BlockModel { event, members: Map::empty(), invalid_votes: Set::empty() }
    }
}

impl View for Block {
    type V = BlockModel;

    open spec fn view(&self) -> BlockModel {
        BlockModel {
            event: self.event,
            members: entries_map(self.members@),
            invalid_votes: names_set(self.invalid_votes@),
        }
    }
}

/// In a sorted sequence the entry for a name decides whether that name has voted.
pub proof fn lemma_entry_decides(s: Seq<(Name, bool)>, i: int)
    requires
        entries_sorted(s),
        0 <= i < s.len(),
    ensures
        is_member(s, s[i].0),
        has_vote(s, s[i].0) == s[i].1,
{
    if has_vote(s, s[i].0) {
        let j = choose|j: int| 0 <= j < s.len() && #[trigger] s[j] == (s[i].0, true);
        assert(j == i);
    }
    if s[i].1 {
        assert(s[i] == (s[i].0, true));
    }
}

/// The map of a sorted sequence has one key for each entry, and one counted voter for each
/// entry that records a vote.
pub proof fn lemma_tally(s: Seq<(Name, bool)>)
    requires
        entries_sorted(s),
    ensures
        entries_map(s).dom().finite(),
        entries_map(s).dom().len() == s.len(),
        Set::new(|name: Name| has_vote(s, name)).finite(),
        Set::new(|name: Name| has_vote(s, name)).len() == vote_count(s),
    decreases s.len(),
{
    let keys = entries_map(s).dom();
    let voted = Set::new(|name: Name| has_vote(s, name));
    if s.len() == 0 {
        assert(keys =~= Set::empty());
        assert(voted =~= Set::empty());
    } else {
        let t = s.drop_last();
        let x = s.last();
        lemma_tally(t);
        let t_keys = entries_map(t).dom();
        let t_voted = Set::new(|name: Name| has_vote(t, name));
        assert forall|name: Name| keys.contains(name) == t_keys.insert(x.0).contains(name) by {
            if is_member(s, name) {
                let i = choose|i: int| 0 <= i < s.len() && (#[trigger] s[i]).0 == name;
                if i < t.len() {
                    assert(t[i].0 == name);
                }
            }
            if is_member(t, name) {
                let i = choose|i: int| 0 <= i < t.len() && (#[trigger] t[i]).0 == name;
                assert(s[i].0 == name);
            }
            if name == x.0 {
                assert(s[s.len() - 1].0 == name);
            }
        }
        assert(keys =~= t_keys.insert(x.0));
        if t_keys.contains(x.0) {
            let i = choose|i: int| 0 <= i < t.len() && (#[trigger] t[i]).0 == x.0;
            assert(s[i].0.0 < s[s.len() - 1].0.0);
        }
        let grown = if x.1 { t_voted.insert(x.0) } else { t_voted };
        assert forall|name: Name| voted.contains(name) == grown.contains(name) by {
            if has_vote(s, name) {
                let i = choose|i: int| 0 <= i < s.len() && #[trigger] s[i] == (name, true);
                if i < t.len() {
                    assert(t[i] == (name, true));
                }
            }
            if has_vote(t, name) {
                let i = choose|i: int| 0 <= i < t.len() && #[trigger] t[i] == (name, true);
                assert(s[i] == (name, true));
            }
            if x.1 && name == x.0 {
                assert(s[s.len() - 1] == (name, true));
            }
        }
        assert(voted =~= grown);
        if t_voted.contains(x.0) {
            let i = choose|i: int| 0 <= i < t.len() && #[trigger] t[i] == (x.0, true);
            assert(s[i].0.0 < s[s.len() - 1].0.0);
        }
    }
}

/// What inserting an entry does to membership and votes.
proof fn lemma_entry_inserted(s: Seq<(Name, bool)>, p: int, x: (Name, bool))
    requires
        0 <= p <= s.len(),
    ensures
        forall|name: Name| is_member(s.insert(p, x), name) == (is_member(s, name) || name == x.0),
        forall|name: Name|
            has_vote(s.insert(p, x), name) == (has_vote(s, name) || x == (name, true)),
{
    let t = s.insert(p, x);
    assert(t[p] == x);
    assert forall|name: Name| is_member(t, name) == (is_member(s, name) || name == x.0) by {
        if is_member(s, name) {
            let i = choose|i: int| 0 <= i < s.len() && (#[trigger] s[i]).0 == name;
            if i < p {
                assert(t[i].0 == name);
            } else {
                assert(t[i + 1].0 == name);
            }
        }
        if is_member(t, name) {
            let j = choose|j: int| 0 <= j < t.len() && (#[trigger] t[j]).0 == name;
            if j < p {
                assert(s[j].0 == name);
            } else if j > p {
                assert(s[j - 1].0 == name);
            }
        }
        if name == x.0 {
            assert(t[p].0 == name);
        }
    }
    assert forall|name: Name| has_vote(t, name) == (has_vote(s, name) || x == (name, true)) by {
        if has_vote(s, name) {
            let i = choose|i: int| 0 <= i < s.len() && #[trigger] s[i] == (name, true);
            if i < p {
                assert(t[i] == (name, true));
            } else {
                assert(t[i + 1] == (name, true));
            }
        }
        if has_vote(t, name) {
            let j = choose|j: int| 0 <= j < t.len() && #[trigger] t[j] == (name, true);
            if j < p {
                assert(s[j] == (name, true));
            } else if j > p {
                assert(s[j - 1] == (name, true));
            }
        }
        if x == (name, true) {
            assert(t[p] == (name, true));
        }
    }
}

/// What removing the entry at `p` does to membership, in a sorted sequence.
proof fn lemma_entry_removed(s: Seq<(Name, bool)>, p: int)
    requires
        entries_sorted(s),
        0 <= p < s.len(),
    ensures
        entries_sorted(s.remove(p)),
        forall|name: Name| is_member(s.remove(p), name) == (is_member(s, name) && name != s[p].0),
        forall|name: Name| has_vote(s.remove(p), name) == (has_vote(s, name) && name != s[p].0),
{
    let t = s.remove(p);
    assert forall|i: int, j: int| 0 <= i < j < t.len() implies t[i].0.0 < t[j].0.0 by {
        let a = if i < p { i } else { i + 1 };
        let b = if j < p { j } else { j + 1 };
        assert(s[a].0.0 < s[b].0.0);
    }
    assert forall|name: Name| is_member(t, name) == (is_member(s, name) && name != s[p].0) by {
        if is_member(s, name) && name != s[p].0 {
            let i = choose|i: int| 0 <= i < s.len() && (#[trigger] s[i]).0 == name;
            if i < p {
                assert(t[i].0 == name);
            } else {
                assert(t[i - 1].0 == name);
            }
        }
        if is_member(t, name) {
            let j = choose|j: int| 0 <= j < t.len() && (#[trigger] t[j]).0 == name;
            let a = if j < p { j } else { j + 1 };
            assert(s[a].0 == name);
            if a < p {
                assert(s[a].0.0 < s[p].0.0);
            } else {
                assert(s[p].0.0 < s[a].0.0);
            }
        }
    }
    assert forall|name: Name| has_vote(t, name) == (has_vote(s, name) && name != s[p].0) by {
        if has_vote(s, name) && name != s[p].0 {
            let i = choose|i: int| 0 <= i < s.len() && #[trigger] s[i] == (name, true);
            if i < p {
                assert(t[i] == (name, true));
            } else {
                assert(t[i - 1] == (name, true));
            }
        }
        if has_vote(t, name) {
            let j = choose|j: int| 0 <= j < t.len() && #[trigger] t[j] == (name, true);
            let a = if j < p { j } else { j + 1 };
            assert(s[a] == (name, true));
            if a < p {
                assert(s[a].0.0 < s[p].0.0);
            } else {
                assert(s[p].0.0 < s[a].0.0);
            }
        }
    }
}

/// What overwriting the vote of the entry at `p` does, in a sorted sequence.
proof fn lemma_entry_updated(s: Seq<(Name, bool)>, p: int, voted: bool)
    requires
        entries_sorted(s),
        0 <= p < s.len(),
    ensures
        entries_sorted(s.update(p, (s[p].0, voted))),
        forall|name: Name| is_member(s.update(p, (s[p].0, voted)), name) == is_member(s, name),
        forall|name: Name|
            has_vote(s.update(p, (s[p].0, voted)), name) == (if name == s[p].0 {
                voted
            } else {
                has_vote(s, name)
            }),
{
    let t = s.update(p, (s[p].0, voted));
    assert forall|i: int, j: int| 0 <= i < j < t.len() implies t[i].0.0 < t[j].0.0 by {
        assert(s[i].0.0 < s[j].0.0);
    }
    assert forall|name: Name| is_member(t, name) == is_member(s, name) by {
        if is_member(s, name) {
            let i = choose|i: int| 0 <= i < s.len() && (#[trigger] s[i]).0 == name;
            assert(t[i].0 == name);
        }
        if is_member(t, name) {
            let i = choose|i: int| 0 <= i < t.len() && (#[trigger] t[i]).0 == name;
            assert(s[i].0 == name);
        }
    }
    assert forall|name: Name|
        has_vote(t, name) == (if name == s[p].0 {
            voted
        } else {
            has_vote(s, name)
        }) by {
        lemma_entry_decides(t, p);
        if name != s[p].0 {
            if has_vote(s, name) {
                let i = choose|i: int| 0 <= i < s.len() && #[trigger] s[i] == (name, true);
                assert(t[i] == (name, true));
            }
            if has_vote(t, name) {
                let i = choose|i: int| 0 <= i < t.len() && #[trigger] t[i] == (name, true);
                assert(s[i] == (name, true));
            }
        }
    }
}

/// The index of the entry for `name`, if there is one.
fn find_entry(s: &Vec<(Name, bool)>, name: Name) -> (found: Option<usize>)
    ensures
        match found {
            Some(i) => i < s.len() && s[i as int].0 == name,
            None => !is_member(s@, name),
        },
{
    let mut i: usize = 0;
    while i < s.len()
        invariant
            i <= s.len(),
            forall|k: int| 0 <= k < i ==> (#[trigger] s[k]).0 != name,
        decreases s.len() - i,
    {
        if s[i].0 == name {
            return Some(i);
        }
        i += 1;
    }
    None
}

/// Whether `name` is among `s`.
pub(crate) fn holds_name(s: &Vec<Name>, name: Name) -> (found: bool)
    ensures
        found == names_set(s@).contains(name),
{
    let mut i: usize = 0;
    while i < s.len()
        invariant
            i <= s.len(),
            forall|k: int| 0 <= k < i ==> s[k] != name,
        decreases s.len() - i,
    {
        if s[i] == name {
            return true;
        }
        i += 1;
    }
    false
}

/// Puts `name` in its place among the sorted names `s`, unless it is there already.
pub(crate) fn insert_name(s: &mut Vec<Name>, name: Name)
    requires
        names_sorted(old(s)@),
    ensures
        names_sorted(final(s)@),
        names_set(final(s)@) == names_set(old(s)@).insert(name),
{
    let mut p: usize = 0;
    while p < s.len() && s[p].0 < name.0
        invariant
            p <= s.len(),
            *s == *old(s),
            forall|k: int| 0 <= k < p ==> s[k].0 < name.0,
        decreases s.len() - p,
    {
        p += 1;
    }
    let ghost before = s@;
    if p < s.len() && s[p].0 == name.0 {
        assert(before[p as int] == name);
        assert(names_set(before) =~= names_set(before).insert(name));
    } else {
        s.insert(p, name);
        let ghost after = s@;
        assert(after[p as int] == name);
        assert forall|i: int, j: int| 0 <= i < j < after.len() implies after[i].0 < after[j].0 by {
            let a = if i < p { i } else { i - 1 };
            let b = if j < p { j } else { j - 1 };
            if i != p && j != p {
                assert(before[a].0 < before[b].0);
            } else if j == p {
                assert(before[i].0 < name.0);
            } else {
                assert(before[p as int].0 <= before[b].0);
            }
        }
        assert forall|other: Name|
            names_set(after).contains(other) == names_set(before).insert(name).contains(
                other,
            ) by {
            if before.contains(other) {
                let i = choose|i: int| 0 <= i < before.len() && before[i] == other;
                if i < p {
                    assert(after[i] == other);
                } else {
                    assert(after[i + 1] == other);
                }
            }
            if after.contains(other) {
                let j = choose|j: int| 0 <= j < after.len() && after[j] == other;
                if j < p {
                    assert(before[j] == other);
                } else if j > p {
                    assert(before[j - 1] == other);
                }
            }
        }
        assert(names_set(after) =~= names_set(before).insert(name));
    }
}

/// Records `voted` for `name` among the sorted entries `s`, in a new entry where it has none.
fn insert_entry(s: &mut Vec<(Name, bool)>, name: Name, voted: bool)
    requires
        entries_sorted(old(s)@),
    ensures
        entries_sorted(final(s)@),
        entries_map(final(s)@) == entries_map(old(s)@).insert(name, voted),
{
    let mut p: usize = 0;
    while p < s.len() && s[p].0.0 < name.0
        invariant
            p <= s.len(),
            *s == *old(s),
            forall|k: int| 0 <= k < p ==> s[k].0.0 < name.0,
        decreases s.len() - p,
    {
        p += 1;
    }
    let ghost before = s@;
    if p < s.len() && s[p].0.0 == name.0 {
        s.set(p, (name, voted));
        proof {
            assert(before[p as int].0 == name);
            lemma_entry_updated(before, p as int, voted);
            let after = s@;
            assert(after == before.update(p as int, (before[p as int].0, voted)));
            lemma_entry_decides(before, p as int);
            assert forall|other: Name| is_member(after, other) == (is_member(before, other) || other == name) by {}
            assert forall|other: Name| is_member(after, other) implies has_vote(after, other) == (if other == name { voted } else { has_vote(before, other) }) by {}
            assert(entries_map(after).dom() =~= entries_map(before).insert(name, voted).dom());
            assert(entries_map(after) =~= entries_map(before).insert(name, voted));
        }
    } else {
        s.insert(p, (name, voted));
        let ghost after = s@;
        proof {
            lemma_entry_inserted(before, p as int, (name, voted));
            assert(after[p as int] == (name, voted));
            assert forall|i: int, j: int| 0 <= i < j < after.len() implies after[i].0.0
                < after[j].0.0 by {
                let a = if i < p { i } else { i - 1 };
                let b = if j < p { j } else { j - 1 };
                if i != p && j != p {
                    assert(before[a].0.0 < before[b].0.0);
                } else if j == p {
                    assert(before[i].0.0 < name.0);
                } else {
                    assert(before[p as int].0.0 <= before[b].0.0);
                }
            }
            assert(!is_member(before, name)) by {
                if is_member(before, name) {
                    let i = choose|i: int| 0 <= i < before.len() && (#[trigger] before[i]).0 == name;
                    if i < p {
                    } else {
                        assert(before[p as int].0.0 <= before[i].0.0);
                    }
                }
            }
            assert(!has_vote(before, name)) by {
                if has_vote(before, name) {
                    let i = choose|i: int| 0 <= i < before.len() && #[trigger] before[i] == (name, true);
                    assert(before[i].0 == name);
                }
            }
            assert(entries_map(after) =~= entries_map(before).insert(name, voted));
        }
    }
}

/// Whether one of the first `upto` entries of `s` records a vote of `name`.
spec fn voted_among(s: Seq<(Name, bool)>, upto: int, name: Name) -> bool {
    exists|k: int| 0 <= k < upto && #[trigger] s[k] == (name, true)
}

/// Whether `name` is one of the first `upto` names of `s`.
spec fn named_among(s: Seq<Name>, upto: int, name: Name) -> bool {
    exists|k: int| 0 <= k < upto && #[trigger] s[k] == name
}

/// The voters among the first `upto` entries of `from` that `keys` leaves out.
spec fn outvoted(keys: Seq<(Name, bool)>, from: Seq<(Name, bool)>, upto: int) -> Set<Name> {
    Set::new(|name: Name| !is_member(keys, name) && voted_among(from, upto, name))
}

/// The names that `keys` leaves out among the voters of `from` and the first `upto` of `aside`.
spec fn left_out(
    keys: Seq<(Name, bool)>,
    from: Seq<(Name, bool)>,
    aside: Seq<Name>,
    upto: int,
) -> Set<Name> {
    Set::new(
        |name: Name|
            !is_member(keys, name) && (has_vote(from, name) || named_among(aside, upto, name)),
    )
}

/// Whether one of the first `upto` entries of `s` is for `name`.
spec fn member_among(s: Seq<(Name, bool)>, upto: int, name: Name) -> bool {
    exists|k: int| 0 <= k < upto && (#[trigger] s[k]).0 == name
}

impl BlockId {
    /// The event that the identity stands for.
    pub fn into_event(self) -> (event: NetworkEvent)
        ensures
            event == self.0,
    {
        self.0
    }
}

impl Block {
    /// Both lists are in ascending order, and no member is among the invalid voters.
    pub open spec fn wf(&self) -> bool {
        &&& entries_sorted(self.members@)
        &&& names_sorted(self.invalid_votes@)
        &&& forall|name: Name|
            !(is_member(self.members@, name) && names_set(self.invalid_votes@).contains(name))
    }

    /// The identity of the block.
    pub fn get_id(&self) -> (id: BlockId)
        ensures
            id == BlockId(self.event),
    {
        BlockId(self.event)
    }

    /// The first block of a ledger: `event` with no members and no votes.
    pub fn genesis(event: NetworkEvent) -> (block: Block)
        ensures
            block.wf(),
            block@ == BlockModel::genesis(event),
            block.members@.len() == 0,
            block.invalid_votes@.len() == 0,
    {
        let block = Block { event, members: Vec::new(), invalid_votes: Vec::new() };
        assert(block@.members =~= Map::empty());
        assert(block@.invalid_votes =~= Set::empty());
        block
    }

    /// A copy of the block.
    pub fn duplicate(&self) -> (block: Block)
        ensures
            block.event == self.event,
            block.members@ == self.members@,
            block.invalid_votes@ == self.invalid_votes@,
    {
        let mut members: Vec<(Name, bool)> = Vec::new();
        let mut i: usize = 0;
        while i < self.members.len()
            invariant
                i <= self.members.len(),
                members@ == self.members@.take(i as int),
            decreases self.members.len() - i,
        {
            members.push(self.members[i]);
            assert(self.members@.take(i + 1) == self.members@.take(i as int).push(
                self.members@[i as int],
            ));
            i += 1;
        }
        assert(self.members@.take(i as int) == self.members@);
        let mut invalid_votes: Vec<Name> = Vec::new();
        let mut j: usize = 0;
        while j < self.invalid_votes.len()
            invariant
                j <= self.invalid_votes.len(),
                invalid_votes@ == self.invalid_votes@.take(j as int),
            decreases self.invalid_votes.len() - j,
        {
            invalid_votes.push(self.invalid_votes[j]);
            assert(self.invalid_votes@.take(j + 1) == self.invalid_votes@.take(j as int).push(
                self.invalid_votes@[j as int],
            ));
            j += 1;
        }
        assert(self.invalid_votes@.take(j as int) == self.invalid_votes@);
        Block { event: self.event, members, invalid_votes }
    }

    /// The members of the block, each unvoted.
    pub fn clone_members(&self) -> (members: Vec<(Name, bool)>)
        requires
            self.wf(),
        ensures
            entries_sorted(members@),
            entries_map(members@) == unvoted(self@.members.dom()),
    {
        let mut members: Vec<(Name, bool)> = Vec::new();
        let mut i: usize = 0;
        while i < self.members.len()
            invariant
                i <= self.members.len(),
                members.len() == i,
                forall|k: int| 0 <= k < i ==> #[trigger] members[k] == (self.members[k].0, false),
            decreases self.members.len() - i,
        {
            members.push((self.members[i].0, false));
            i += 1;
        }
        proof {
            let from = self.members@;
            let to = members@;
            assert forall|a: int, b: int| 0 <= a < b < to.len() implies to[a].0.0 < to[b].0.0 by {
                assert(from[a].0.0 < from[b].0.0);
            }
            assert forall|name: Name| is_member(to, name) == is_member(from, name) by {
                if is_member(to, name) {
                    let k = choose|k: int| 0 <= k < to.len() && (#[trigger] to[k]).0 == name;
                    assert(from[k].0 == name);
                }
                if is_member(from, name) {
                    let k = choose|k: int| 0 <= k < from.len() && (#[trigger] from[k]).0 == name;
                    assert(to[k].0 == name);
                }
            }
            assert forall|name: Name| !has_vote(to, name) by {
                if has_vote(to, name) {
                    let k = choose|k: int| 0 <= k < to.len() && #[trigger] to[k] == (name, true);
                    assert(to[k].1 == false);
                }
            }
            assert(entries_map(to) =~= unvoted(self@.members.dom()));
        }
        members
    }

    /// Whether the event can be applied to the members: a lost node must be among them.
    pub fn event_applies(&self) -> (applies: bool)
        ensures
            applies == self@.event_applies(),
    {
        match self.event {
            NetworkEvent::NodeLost(name) => find_entry(&self.members, name).is_some(),
            _ => true,
        }
    }

    /// The membership that the event of this block produces from its own members, each
    /// unvoted: a gained node joins them, a lost node leaves them, a split keeps those that
    /// match the new prefix, and a merge keeps them all.
    pub fn apply_event(&self) -> (members: Vec<(Name, bool)>)
        requires
            self.wf(),
            self@.event_applies(),
        ensures
            entries_sorted(members@),
            entries_map(members@) == unvoted(self@.applied()),
    {
        match self.event {
            NetworkEvent::NodeGained(name) => {
                let mut members = self.clone_members();
                insert_entry(&mut members, name, false);
                proof {
                    let keys = self@.members.dom();
                    assert(self@.applied() == keys.insert(name));
                    assert(unvoted(keys).insert(name, false) =~= unvoted(keys.insert(name)));
                }
                members
            },
            NetworkEvent::NodeLost(name) => {
                let mut members = self.clone_members();
                let ghost before = members@;
                match find_entry(&members, name) {
                    Some(i) => {
                        members.remove(i);
                        proof {
                            lemma_entry_removed(before, i as int);
                            let keys = self@.members.dom();
                            let after = members@;
                            assert(self@.applied() == keys.remove(name));
                            assert forall|other: Name| is_member(before, other) == keys.contains(other) by {
                                assert(entries_map(before).dom().contains(other) == unvoted(
                                    keys,
                                ).dom().contains(other));
                            }
                            assert forall|other: Name| is_member(after, other) implies !has_vote(
                                after,
                                other,
                            ) by {
                                assert(entries_map(before)[other] == unvoted(keys)[other]);
                            }
                            assert(entries_map(after).dom() =~= unvoted(keys.remove(name)).dom());
                            assert(entries_map(after) =~= unvoted(keys.remove(name)));
                        }
                    },
                    None => {
                        assert(entries_map(members@) =~= unvoted(self@.applied()));
                    },
                }
                members
            },
            NetworkEvent::Split(prefix) => {
                let mut members: Vec<(Name, bool)> = Vec::new();
                let mut i: usize = 0;
                while i < self.members.len()
                    invariant
                        i <= self.members.len(),
                        entries_sorted(self.members@),
                        entries_sorted(members@),
                        forall|k: int|
                            0 <= k < members.len() ==> !(#[trigger] members[k]).1
                                && prefix.matches_spec(members[k].0) && member_among(
                                self.members@,
                                i as int,
                                members[k].0,
                            ),
                        forall|k: int|
                            0 <= k < i && prefix.matches_spec((#[trigger] self.members[k]).0)
                                ==> is_member(members@, self.members[k].0),
                    decreases self.members.len() - i,
                {
                    let name = self.members[i].0;
                    if prefix.matches(name) {
                        let ghost before = members@;
                        members.push((name, false));
                        proof {
                            let after = members@;
                            assert forall|a: int, b: int| 0 <= a < b < after.len() implies after[a].0.0
                                < after[b].0.0 by {
                                if b == before.len() {
                                    assert(member_among(self.members@, i as int, before[a].0));
                                    let k = choose|k: int|
                                        0 <= k < i && (#[trigger] self.members@[k]).0
                                            == before[a].0;
                                    assert(self.members@[k].0.0 < self.members@[i as int].0.0);
                                } else {
                                    assert(before[a].0.0 < before[b].0.0);
                                }
                            }
                            assert(after[before.len() as int].0 == name);
                            assert forall|k: int|
                                0 <= k < i && prefix.matches_spec((#[trigger] self.members[k]).0)
                                implies is_member(after, self.members[k].0) by {
                                let j = choose|j: int|
                                    0 <= j < before.len() && (#[trigger] before[j]).0
                                        == self.members[k].0;
                                assert(after[j].0 == self.members[k].0);
                            }
                        }
                    }
                    i += 1;
                }
                proof {
                    let from = self.members@;
                    let to = members@;
                    assert forall|name: Name|
                        is_member(to, name) == (is_member(from, name) && prefix.matches_spec(
                            name,
                        )) by {
                        if is_member(to, name) {
                            let k = choose|k: int| 0 <= k < to.len() && (#[trigger] to[k]).0 == name;
                            assert(member_among(from, i as int, to[k].0));
                        }
                        if is_member(from, name) && prefix.matches_spec(name) {
                            let k = choose|k: int|
                                0 <= k < from.len() && (#[trigger] from[k]).0 == name;
                            assert(is_member(to, from[k].0));
                        }
                    }
                    assert forall|name: Name| !has_vote(to, name) by {
                        if has_vote(to, name) {
                            let k = choose|k: int| 0 <= k < to.len() && #[trigger] to[k] == (name, true);
                            assert(!to[k].1);
                        }
                    }
                    assert(entries_map(to) =~= unvoted(self@.applied()));
                }
                members
            },
            NetworkEvent::Merge(_) => self.clone_members(),
        }
    }

    /// Gives the block the membership of `other` and sorts the votes on record by it: a name
    /// of `other` has voted where it had voted as a member or was among the invalid voters;
    /// every other name with a vote on record is kept among the invalid voters.
    pub fn adjust_votes(&mut self, other: Vec<(Name, bool)>)
        requires
            old(self).wf(),
            entries_sorted(other@),
        ensures
            final(self).wf(),
            final(self)@ == old(self)@.adjusted(entries_map(other@).dom()),
    {
        let ghost model = self@;
        let ghost keys = entries_map(other@).dom();
        let mut members: Vec<(Name, bool)> = Vec::new();
        let mut i: usize = 0;
        while i < other.len()
            invariant
                i <= other.len(),
                *self == *old(self),
                self.wf(),
                model == self@,
                members.len() == i,
                forall|k: int|
                    0 <= k < i ==> #[trigger] members[k] == (other[k].0, model.has_voted(other[k].0)),
            decreases other.len() - i,
        {
            let name = other[i].0;
            let counted = match find_entry(&self.members, name) {
                Some(j) => {
                    proof {
                        lemma_entry_decides(self.members@, j as int);
                    }
                    self.members[j].1
                },
                None => {
                    assert(!has_vote(self.members@, name)) by {
                        if has_vote(self.members@, name) {
                            let k = choose|k: int|
                                0 <= k < self.members@.len() && #[trigger] self.members@[k] == (
                                    name,
                                    true,
                                );
                            assert(self.members@[k].0 == name);
                        }
                    }
                    false
                },
            };
            let voted = counted || holds_name(&self.invalid_votes, name);
            members.push((name, voted));
            i += 1;
        }
        proof {
            let to = members@;
            assert forall|a: int, b: int| 0 <= a < b < to.len() implies to[a].0.0 < to[b].0.0 by {
                assert(other@[a].0.0 < other@[b].0.0);
            }
            assert forall|name: Name| is_member(to, name) == keys.contains(name) by {
                if is_member(to, name) {
                    let k = choose|k: int| 0 <= k < to.len() && (#[trigger] to[k]).0 == name;
                    assert(other@[k].0 == name);
                }
                if is_member(other@, name) {
                    let k = choose|k: int|
                        0 <= k < other@.len() && (#[trigger] other@[k]).0 == name;
                    assert(to[k].0 == name);
                }
            }
            assert forall|name: Name| is_member(to, name) implies has_vote(to, name)
                == model.has_voted(name) by {
                let k = choose|k: int| 0 <= k < to.len() && (#[trigger] to[k]).0 == name;
                lemma_entry_decides(to, k);
            }
            assert(entries_map(to) =~= model.adjusted(keys).members);
        }
        let mut invalid: Vec<Name> = Vec::new();
        let mut j: usize = 0;
        assert(names_set(invalid@) =~= outvoted(members@, self.members@, 0));
        while j < self.members.len()
            invariant
                j <= self.members.len(),
                *self == *old(self),
                names_sorted(invalid@),
                names_set(invalid@) == outvoted(members@, self.members@, j as int),
            decreases self.members.len() - j,
        {
            let entry = self.members[j];
            let ghost before = invalid@;
            if entry.1 && find_entry(&members, entry.0).is_none() {
                insert_name(&mut invalid, entry.0);
            }
            proof {
                let from = self.members@;
                assert forall|name: Name|
                    names_set(invalid@).contains(name) == outvoted(members@, from, j + 1).contains(
                        name,
                    ) by {
                    if voted_among(from, j as int, name) {
                        let a = choose|a: int| 0 <= a < j && #[trigger] from[a] == (name, true);
                        assert(from[a] == (name, true) && a < j + 1);
                    }
                    if voted_among(from, j + 1, name) {
                        let a = choose|a: int| 0 <= a < j + 1 && #[trigger] from[a] == (name, true);
                        if a < j {
                            assert(voted_among(from, j as int, name));
                        }
                    }
                    if entry == (name, true) {
                        assert(from[j as int] == (name, true));
                    }
                    assert(names_set(before).contains(name) == outvoted(
                        members@,
                        from,
                        j as int,
                    ).contains(name));
                }
                assert(names_set(invalid@) =~= outvoted(members@, from, j + 1));
            }
            j += 1;
        }
        assert(outvoted(members@, self.members@, j as int) =~= left_out(
            members@,
            self.members@,
            self.invalid_votes@,
            0,
        ));
        let mut k: usize = 0;
        while k < self.invalid_votes.len()
            invariant
                k <= self.invalid_votes.len(),
                *self == *old(self),
                names_sorted(invalid@),
                names_set(invalid@) == left_out(
                    members@,
                    self.members@,
                    self.invalid_votes@,
                    k as int,
                ),
            decreases self.invalid_votes.len() - k,
        {
            let voter = self.invalid_votes[k];
            let ghost before = invalid@;
            if find_entry(&members, voter).is_none() {
                insert_name(&mut invalid, voter);
            }
            proof {
                let from = self.invalid_votes@;
                assert forall|name: Name|
                    names_set(invalid@).contains(name) == left_out(
                        members@,
                        self.members@,
                        from,
                        k + 1,
                    ).contains(name) by {
                    if named_among(from, k as int, name) {
                        let a = choose|a: int| 0 <= a < k && #[trigger] from[a] == name;
                        assert(from[a] == name && a < k + 1);
                    }
                    if named_among(from, k + 1, name) {
                        let a = choose|a: int| 0 <= a < k + 1 && #[trigger] from[a] == name;
                        if a < k {
                            assert(named_among(from, k as int, name));
                        }
                    }
                    if voter == name {
                        assert(from[k as int] == name);
                    }
                    assert(names_set(before).contains(name) == left_out(
                        members@,
                        self.members@,
                        from,
                        k as int,
                    ).contains(name));
                }
                assert(names_set(invalid@) =~= left_out(members@, self.members@, from, k + 1));
            }
            k += 1;
        }
        proof {
            assert forall|name: Name|
                names_set(invalid@).contains(name) == model.adjusted(keys).invalid_votes.contains(
                    name,
                ) by {
                if has_vote(self.members@, name) {
                    let a = choose|a: int|
                        0 <= a < self.members@.len() && #[trigger] self.members@[a] == (name, true);
                    assert(self.members@[a].0 == name);
                }
                if named_among(self.invalid_votes@, k as int, name) {
                    assert(self.invalid_votes@.contains(name));
                }
                if self.invalid_votes@.contains(name) {
                    assert(named_among(self.invalid_votes@, k as int, name));
                }
            }
            assert(names_set(invalid@) =~= model.adjusted(keys).invalid_votes);
        }
        self.members = members;
        self.invalid_votes = invalid;
    }

    /// Records a vote of `voter`: counted if it is a member, kept aside if it is not.
    pub fn add_vote(&mut self, voter: Name)
        requires
            old(self).wf(),
        ensures
            final(self).wf(),
            final(self)@ == old(self)@.with_vote(voter),
            final(self).members@.len() == old(self).members@.len(),
    {
        let ghost before = self.members@;
        match find_entry(&self.members, voter) {
            Some(i) => {
                self.members.set(i, (voter, true));
                proof {
                    let after = self.members@;
                    assert(before[i as int].0 == voter);
                    assert(after == before.update(i as int, (before[i as int].0, true)));
                    lemma_entry_updated(before, i as int, true);
                    assert forall|name: Name| is_member(after, name) == is_member(before, name) by {}
                    assert forall|name: Name| is_member(after, name) implies has_vote(after, name)
                        == (if name == voter { true } else { has_vote(before, name) }) by {}
                    assert(entries_map(after).dom() =~= entries_map(before).dom());
                    assert(entries_map(after) =~= entries_map(before).insert(voter, true));
                }
            },
            None => {
                insert_name(&mut self.invalid_votes, voter);
                assert(!old(self)@.members.dom().contains(voter));
            },
        }
    }

    /// The block for `event` that follows this one: its members are those that this block's
    /// event produces, none of which has voted yet.
    pub fn from_event(&self, event: NetworkEvent) -> (block: Block)
        requires
            self.wf(),
            self@.event_applies(),
        ensures
            block.wf(),
            block@ == self@.derived(event),
    {
        let members = self.apply_event();
        let block = Block { event, members, invalid_votes: Vec::new() };
        assert(block@.invalid_votes =~= Set::empty());
        block
    }

    /// The block that follows this one and adds the node `added`.
    pub fn node_added(&self, added: Name) -> (block: Block)
        requires
            self.wf(),
            self@.event_applies(),
        ensures
            block.wf(),
            block@ == self@.derived(NetworkEvent::NodeGained(added)),
    {
        self.from_event(NetworkEvent::NodeGained(added))
    }

    /// The block that follows this one and removes the node `removed`.
    pub fn node_removed(&self, removed: Name) -> (block: Block)
        requires
            self.wf(),
            self@.event_applies(),
        ensures
            block.wf(),
            block@ == self@.derived(NetworkEvent::NodeLost(removed)),
    {
        self.from_event(NetworkEvent::NodeLost(removed))
    }

    /// The block that follows this one and splits the shard towards `to_prefix`.
    pub fn section_split(&self, to_prefix: Prefix) -> (block: Block)
        requires
            self.wf(),
            self@.event_applies(),
        ensures
            block.wf(),
            block@ == self@.derived(NetworkEvent::Split(to_prefix)),
    {
        self.from_event(NetworkEvent::Split(to_prefix))
    }

    /// The block that follows this one and merges the shard into `to_prefix`.
    pub fn section_merge(&self, to_prefix: Prefix) -> (block: Block)
        requires
            self.wf(),
            self@.event_applies(),
        ensures
            block.wf(),
            block@ == self@.derived(NetworkEvent::Merge(to_prefix)),
    {
        self.from_event(NetworkEvent::Merge(to_prefix))
    }

    /// Whether a strict majority of the members has voted; a tie is none.
    pub fn has_consensus(&self) -> (agreed: bool)
        requires
            self.wf(),
        ensures
            agreed == self@.has_consensus(),
            agreed == (2 * vote_count(self.members@) > self.members@.len()),
    {
        let mut count: usize = 0;
        let mut i: usize = 0;
        while i < self.members.len()
            invariant
                i <= self.members.len(),
                count <= i,
                count == vote_count(self.members@.take(i as int)),
            decreases self.members.len() - i,
        {
            assert(self.members@.take(i + 1).drop_last() == self.members@.take(i as int));
            if self.members[i].1 {
                count += 1;
            }
            i += 1;
        }
        proof {
            assert(self.members@.take(i as int) == self.members@);
            lemma_tally(self.members@);
            assert(self@.voters() =~= Set::new(|name: Name| has_vote(self.members@, name))) by {
                assert forall|name: Name| self@.counts(name) == has_vote(self.members@, name) by {
                    if has_vote(self.members@, name) {
                        let a = choose|a: int|
                            0 <= a < self.members@.len() && #[trigger] self.members@[a] == (
                                name,
                                true,
                            );
                        assert(self.members@[a].0 == name);
                    }
                }
            }
        }
        count > self.members.len() - count
    }
}

impl Block {
    /// Adds the members of the block to the sorted names `names`.
    pub fn add_members_to(&self, names: &mut Vec<Name>)
        requires
            names_sorted(old(names)@),
        ensures
            names_sorted(final(names)@),
            names_set(final(names)@) == names_set(old(names)@).union(self@.members.dom()),
    {
        let mut i: usize = 0;
        assert(names_set(names@) =~= names_set(old(names)@).union(
            Set::new(|name: Name| member_among(self.members@, 0, name)),
        ));
        while i < self.members.len()
            invariant
                i <= self.members.len(),
                names_sorted(names@),
                names_set(names@) == names_set(old(names)@).union(
                    Set::new(|name: Name| member_among(self.members@, i as int, name)),
                ),
            decreases self.members.len() - i,
        {
            let ghost before = names@;
            insert_name(names, self.members[i].0);
            proof {
                let from = self.members@;
                let added = from[i as int].0;
                let seen = Set::new(|name: Name| member_among(from, i as int, name));
                let grown = Set::new(|name: Name| member_among(from, i + 1, name));
                assert forall|name: Name| grown.contains(name) == seen.insert(added).contains(
                    name,
                ) by {
                    if member_among(from, i as int, name) {
                        let k = choose|k: int| 0 <= k < i && (#[trigger] from[k]).0 == name;
                        assert(from[k].0 == name && k < i + 1);
                    }
                    if member_among(from, i + 1, name) {
                        let k = choose|k: int| 0 <= k < i + 1 && (#[trigger] from[k]).0 == name;
                        if k < i {
                            assert(member_among(from, i as int, name));
                        }
                    }
                    if name == added {
                        assert(from[i as int].0 == name);
                    }
                }
                assert(grown =~= seen.insert(added));
                assert(names_set(names@) =~= names_set(old(names)@).union(grown));
            }
            i += 1;
        }
        assert(Set::new(|name: Name| member_among(self.members@, i as int, name))
            =~= self@.members.dom());
    }

    /// The members of the block in ascending order.
    pub fn member_names(&self) -> (names: Vec<Name>)
        ensures
            names_sorted(names@),
            names_set(names@) == self@.members.dom(),
    {
        let mut names: Vec<Name> = Vec::new();
        self.add_members_to(&mut names);
        assert(names_set(names@) =~= self@.members.dom());
        names
    }
}

/// A block has consensus exactly when twice the number of entries that record a vote exceeds
/// the number of its members.
pub proof fn law_consensus_is_strict_majority(block: Block)
    requires
        block.wf(),
    ensures
        block@.voters().len() == vote_count(block.members@),
        block@.members.dom().len() == block.members@.len(),
        block@.has_consensus() <==> 2 * vote_count(block.members@) > block.members@.len(),
{
    let s = block.members@;
    lemma_tally(s);
    assert forall|name: Name| block@.counts(name) == has_vote(s, name) by {
        if has_vote(s, name) {
            let a = choose|a: int| 0 <= a < s.len() && #[trigger] s[a] == (name, true);
            assert(s[a].0 == name);
        }
    }
    assert(block@.voters() =~= Set::new(|name: Name| has_vote(s, name)));
}

/// A change of membership loses no vote and invents none: a name has a vote on record after
/// it exactly when it had one before. So a name that has voted, is dropped by one change of
/// membership and is reinstated by the next counts as voted again.
pub proof fn law_votes_survive(
    block: BlockModel,
    without: Set<Name>,
    with: Set<Name>,
    name: Name,
)
    ensures
        block.adjusted(without).has_voted(name) == block.has_voted(name),
        block.has_voted(name) && !without.contains(name) ==> block.adjusted(
            without,
        ).invalid_votes.contains(name),
        block.has_voted(name) && with.contains(name) ==> block.adjusted(without).adjusted(
            with,
        ).counts(name),
{
}

/// A block's tally does not depend on the order in which two votes arrive.
pub proof fn law_votes_commute(block: BlockModel, first: Name, second: Name)
    ensures
        block.with_vote(first).with_vote(second) == block.with_vote(second).with_vote(first),
{
    let a = block.with_vote(first).with_vote(second);
    let b = block.with_vote(second).with_vote(first);
    assert(a.members =~= b.members);
    assert(a.invalid_votes =~= b.invalid_votes);
}

/// A vote is never lost: after any vote, whoever had voted still has, and so has the voter.
pub proof fn law_vote_recorded(block: BlockModel, voter: Name, name: Name)
    ensures
        block.with_vote(voter).has_voted(voter),
        block.has_voted(name) ==> block.with_vote(voter).has_voted(name),
        block.with_vote(voter).members.dom() == block.members.dom(),
{
    assert(block.with_vote(voter).members.dom() =~= block.members.dom());
}

/// Takes `name` out of the sorted names `s`, if it is among them.
pub(crate) fn remove_name(s: &mut Vec<Name>, name: Name)
    requires
        names_sorted(old(s)@),
    ensures
        names_sorted(final(s)@),
        names_set(final(s)@) == names_set(old(s)@).remove(name),
{
    let ghost before = s@;
    let mut p: usize = 0;
    while p < s.len() && s[p] != name
        invariant
            p <= s.len(),
            *s == *old(s),
            forall|k: int| 0 <= k < p ==> s[k] != name,
        decreases s.len() - p,
    {
        p += 1;
    }
    if p < s.len() {
        let _ = s.remove(p);
        proof {
            let after = s@;
            assert forall|i: int, j: int| 0 <= i < j < after.len() implies after[i].0 < after[j].0 by {
                let a = if i < p { i } else { i + 1 };
                let b = if j < p { j } else { j + 1 };
                assert(before[a].0 < before[b].0);
            }
            assert forall|other: Name|
                names_set(after).contains(other) == names_set(before).remove(name).contains(
                    other,
                ) by {
                if before.contains(other) && other != name {
                    let i = choose|i: int| 0 <= i < before.len() && before[i] == other;
                    if i < p {
                        assert(after[i] == other);
                    } else {
                        assert(after[i - 1] == other);
                    }
                }
                if after.contains(other) {
                    let j = choose|j: int| 0 <= j < after.len() && after[j] == other;
                    let a = if j < p { j } else { j + 1 };
                    assert(before[a] == other);
                    if a < p {
                        assert(before[a].0 < before[p as int].0);
                    } else {
                        assert(before[p as int].0 < before[a].0);
                    }
                }
            }
            assert(names_set(after) =~= names_set(before).remove(name));
        }
    } else {
        assert(names_set(before) =~= names_set(before).remove(name));
    }
}

/// Sorted names are as many as the set that they stand for.
pub proof fn lemma_names_len(s: Seq<Name>)
    requires
        names_sorted(s),
    ensures
        names_set(s).finite(),
        names_set(s).len() == s.len(),
    decreases s.len(),
{
    if s.len() == 0 {
        assert(names_set(s) =~= Set::empty());
    } else {
        let t = s.drop_last();
        lemma_names_len(t);
        assert forall|name: Name|
            names_set(s).contains(name) == names_set(t).insert(s.last()).contains(name) by {
            if s.contains(name) {
                let i = choose|i: int| 0 <= i < s.len() && s[i] == name;
                if i < t.len() {
                    assert(t[i] == name);
                }
            }
            if t.contains(name) {
                let i = choose|i: int| 0 <= i < t.len() && t[i] == name;
                assert(s[i] == name);
            }
            if name == s.last() {
                assert(s[s.len() - 1] == name);
            }
        }
        assert(names_set(s) =~= names_set(t).insert(s.last()));
        if t.contains(s.last()) {
            let i = choose|i: int| 0 <= i < t.len() && t[i] == s.last();
            assert(s[i].0 < s[s.len() - 1].0);
        }
    }
}

/// Adds the names `from` to the sorted names `into`.
pub(crate) fn add_names(into: &mut Vec<Name>, from: &Vec<Name>)
    requires
        names_sorted(old(into)@),
    ensures
        names_sorted(final(into)@),
        names_set(final(into)@) == names_set(old(into)@).union(names_set(from@)),
{
    let mut i: usize = 0;
    assert(names_set(into@) =~= names_set(old(into)@).union(
        Set::new(|name: Name| named_among(from@, 0, name)),
    ));
    while i < from.len()
        invariant
            i <= from.len(),
            names_sorted(into@),
            names_set(into@) == names_set(old(into)@).union(
                Set::new(|name: Name| named_among(from@, i as int, name)),
            ),
        decreases from.len() - i,
    {
        insert_name(into, from[i]);
        proof {
            let added = from@[i as int];
            let seen = Set::new(|name: Name| named_among(from@, i as int, name));
            let grown = Set::new(|name: Name| named_among(from@, i + 1, name));
            assert forall|name: Name| grown.contains(name) == seen.insert(added).contains(
                name,
            ) by {
                if named_among(from@, i as int, name) {
                    let k = choose|k: int| 0 <= k < i && #[trigger] from@[k] == name;
                    assert(from@[k] == name && k < i + 1);
                }
                if named_among(from@, i + 1, name) {
                    let k = choose|k: int| 0 <= k < i + 1 && #[trigger] from@[k] == name;
                    if k < i {
                        assert(named_among(from@, i as int, name));
                    }
                }
                if name == added {
                    assert(from@[i as int] == name);
                }
            }
            assert(grown =~= seen.insert(added));
            assert(names_set(into@) =~= names_set(old(into)@).union(grown));
        }
        i += 1;
    }
    assert(Set::new(|name: Name| named_among(from@, i as int, name)) =~= names_set(from@));
}

/// The block after the votes of `voters`, taken one after the other.
pub open spec fn with_votes(block: BlockModel, voters: Seq<Name>) -> BlockModel
    decreases voters.len(),
{
    if voters.len() == 0 {
        block
    } else {
        with_votes(block, voters.drop_last()).with_vote(voters.last())
    }
}

/// What a block holds after the votes of `voters`: a member has voted where it had before or
/// is among `voters`, and the voters that are no members have joined the invalid voters.
pub proof fn law_tally_of_votes(block: BlockModel, voters: Seq<Name>)
    ensures
        with_votes(block, voters).event == block.event,
        with_votes(block, voters).members == Map::new(
            |name: Name| block.members.dom().contains(name),
            |name: Name| block.members[name] || voters.contains(name),
        ),
        with_votes(block, voters).invalid_votes == Set::new(
            |name: Name|
                block.invalid_votes.contains(name) || (voters.contains(name)
                    && !block.members.dom().contains(name)),
        ),
    decreases voters.len(),
{
    let after = with_votes(block, voters);
    let members = Map::new(
        |name: Name| block.members.dom().contains(name),
        |name: Name| block.members[name] || voters.contains(name),
    );
    let invalid = Set::new(
        |name: Name|
            block.invalid_votes.contains(name) || (voters.contains(name)
                && !block.members.dom().contains(name)),
    );
    if voters.len() == 0 {
        assert(after.members =~= members);
        assert(after.invalid_votes =~= invalid);
    } else {
        let front = voters.drop_last();
        let last = voters.last();
        law_tally_of_votes(block, front);
        assert forall|name: Name| voters.contains(name) == (front.contains(name) || name == last) by {
            if voters.contains(name) {
                let i = choose|i: int| 0 <= i < voters.len() && voters[i] == name;
                if i < front.len() {
                    assert(front[i] == name);
                }
            }
            if front.contains(name) {
                let i = choose|i: int| 0 <= i < front.len() && front[i] == name;
                assert(voters[i] == name);
            }
            if name == last {
                assert(voters[voters.len() - 1] == name);
            }
        }
        assert(after.members =~= members);
        assert(after.invalid_votes =~= invalid);
    }
}

/// A block's tally, and with it whether the block has consensus, depends on who has voted
/// and not on the order in which the votes arrive, nor on how often one arrives.
pub proof fn law_tally_ignores_order(block: BlockModel, first: Seq<Name>, second: Seq<Name>)
    requires
        forall|name: Name| first.contains(name) == second.contains(name),
    ensures
        with_votes(block, first) == with_votes(block, second),
        with_votes(block, first).has_consensus() == with_votes(block, second).has_consensus(),
{
    law_tally_of_votes(block, first);
    law_tally_of_votes(block, second);
    assert(with_votes(block, first).members =~= with_votes(block, second).members);
    assert(with_votes(block, first).invalid_votes =~= with_votes(block, second).invalid_votes);
}

} // verus!
