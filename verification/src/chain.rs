//! A chain: the ledger of one shard, an ordered sequence of blocks in which a block is found
//! by its identity and moved to the frontier when it is voted on.

use vstd::prelude::*;
use crate::block::{unvoted, Block, BlockId, BlockModel, NetworkEvent};
use crate::name::Name;

verus! {

/// The ledger of one shard: its blocks in their order. No two blocks share an identity, so
/// the identity of a block gives its position; blocks are added and moved, never deleted.
#[derive(Clone, Debug, PartialEq, Eq, Hash)]
pub struct Chain {
    blocks: Vec<Block>,
}

/// Whether some block of `s` has the identity `id`.
pub open spec fn holds(s: Seq<BlockModel>, id: BlockId) -> bool {
    exists|i: int| 0 <= i < s.len() && (#[trigger] s[i]).event == id.0
}

/// The position of the block with identity `id`, where `s` holds one.
pub open spec fn position(s: Seq<BlockModel>, id: BlockId) -> int {
    choose|i: int| 0 <= i < s.len() && (#[trigger] s[i]).event == id.0
}

/// No two blocks share an identity.
pub open spec fn distinct_ids(s: Seq<BlockModel>) -> bool {
    forall|i: int, j: int| 0 <= i < j < s.len() ==> s[i].event != s[j].event
}

/// Every block but the first has the members that its predecessor's event produces from the
/// predecessor's own members.
pub open spec fn linked(s: Seq<BlockModel>) -> bool {
    forall|i: int| 0 < i < s.len() ==> #[trigger] link_at(s, i)
}

/// The block at `i` has the members that the event of the block before it produces.
pub open spec fn link_at(s: Seq<BlockModel>, i: int) -> bool {
    s[i].members.dom() == s[i - 1].applied()
}

/// The highest position in `low..upto` whose block has consensus.
pub open spec fn last_confirmed_in(s: Seq<BlockModel>, low: int, upto: int) -> Option<int>
    decreases upto - low,
{
    if upto <= low {
        None
    } else if s[upto - 1].has_consensus() {
        Some(upto - 1)
    } else {
        last_confirmed_in(s, low, upto - 1)
    }
}

/// The highest position whose block has consensus.
pub open spec fn last_confirmed(s: Seq<BlockModel>) -> Option<int> {
    last_confirmed_in(s, 0, s.len() as int)
}

/// The position right after the last confirmed block; the start where none is confirmed.
pub open spec fn frontier(s: Seq<BlockModel>) -> int {
    match last_confirmed(s) {
        Some(i) => i + 1,
        None => 0,
    }
}

/// The block that would follow the tail of `s` for `event`; the genesis block where `s` is
/// empty.
pub open spec fn next_block(s: Seq<BlockModel>, event: NetworkEvent) -> BlockModel {
    if s.len() == 0 {
        BlockModel::genesis(event)
    } else {
        s.last().derived(event)
    }
}

/// `s` with a pending block for `event` at its tail, unless it holds one for it already.
pub open spec fn proposed(s: Seq<BlockModel>, event: NetworkEvent) -> Seq<BlockModel> {
    if holds(s, BlockId(event)) {
        s
    } else {
        s.push(next_block(s, event))
    }
}

/// Whether a block for `event` can be derived from the tail of `s`.
pub open spec fn can_propose(s: Seq<BlockModel>, event: NetworkEvent) -> bool {
    holds(s, BlockId(event)) || s.len() == 0 || s.last().event_applies()
}

/// `s` from position `from` on, each block given the members that its predecessor produces.
pub open spec fn rederived(s: Seq<BlockModel>, from: int) -> Seq<BlockModel>
    decreases s.len() - from,
{
    if from < 1 || from >= s.len() {
        s
    } else {
        rederived(s.update(from, s[from].adjusted(s[from - 1].applied())), from + 1)
    }
}

/// Whether every event that `rederived` applies can be applied.
pub open spec fn rederivable(s: Seq<BlockModel>, from: int) -> bool
    decreases s.len() - from,
{
    if from < 1 || from >= s.len() {
        true
    } else {
        s[from - 1].event_applies() && rederivable(
            s.update(from, s[from].adjusted(s[from - 1].applied())),
            from + 1,
        )
    }
}

/// `s` with the blocks at `i` and `j` exchanged; where one of them is the first, the block
/// that comes first loses its members.
pub open spec fn exchanged(s: Seq<BlockModel>, i: int, j: int) -> Seq<BlockModel> {
    let t = s.update(i, s[j]).update(j, s[i]);
    if i == 0 || j == 0 {
        t.update(0, t[0].adjusted(Set::empty()))
    } else {
        t
    }
}

/// The first position whose members an exchange of `i` and `j` changes by derivation.
pub open spec fn exchange_start(i: int, j: int) -> int {
    if i == 0 || j == 0 {
        1
    } else if i <= j {
        i
    } else {
        j
    }
}

/// The chain after the blocks at `i` and `j` have changed places and every block from the
/// lower of the two on has been given its members anew.
pub open spec fn reordered(s: Seq<BlockModel>, i: int, j: int) -> Seq<BlockModel> {
    rederived(exchanged(s, i, j), exchange_start(i, j))
}

/// Whether the blocks at `i` and `j` can change places: every event that is applied on the
/// way can be applied.
pub open spec fn can_reorder(s: Seq<BlockModel>, i: int, j: int) -> bool {
    rederivable(exchanged(s, i, j), exchange_start(i, j))
}

/// Whether the block at `i` can take a vote: unless it is confirmed already, the frontier is
/// a position of the chain to which the block can be moved.
pub open spec fn can_vote_at(t: Seq<BlockModel>, i: int) -> bool {
    t[i].has_consensus() || (frontier(t) < t.len() && can_reorder(t, i, frontier(t)))
}

/// The chain after `voter` has voted for the block at `i`. A confirmed block only takes the
/// vote. Any other block moves to the frontier and takes the vote there.
pub open spec fn voted_at(t: Seq<BlockModel>, i: int, voter: Name) -> Seq<BlockModel> {
    if t[i].has_consensus() {
        t.update(i, t[i].with_vote(voter))
    } else {
        let f = frontier(t);
        let r = reordered(t, i, f);
        r.update(f, r[f].with_vote(voter))
    }
}

/// Whether the vote of `voter` for the block at `i` leaves it confirmed that was not before.
pub open spec fn confirms_at(t: Seq<BlockModel>, i: int, voter: Name) -> bool {
    !t[i].has_consensus() && voted_at(t, i, voter)[frontier(t)].has_consensus()
}

/// Whether a vote for `id` can be taken: a block for it can be derived where there is none,
/// and the block can take a vote.
pub open spec fn vote_defined(s: Seq<BlockModel>, id: BlockId) -> bool {
    can_propose(s, id.0) && can_vote_at(proposed(s, id.0), position(proposed(s, id.0), id))
}

/// The chain after `voter` has voted for `id`; the block is pending at the tail first where
/// the chain did not hold it.
pub open spec fn after_vote(s: Seq<BlockModel>, id: BlockId, voter: Name) -> Seq<BlockModel> {
    voted_at(proposed(s, id.0), position(proposed(s, id.0), id), voter)
}

/// Whether the vote of `voter` for `id` leaves the block confirmed that was not before.
pub open spec fn vote_confirms(s: Seq<BlockModel>, id: BlockId, voter: Name) -> bool {
    confirms_at(proposed(s, id.0), position(proposed(s, id.0), id), voter)
}

/// Blocks that agree on consensus in `low..upto` have the same last confirmed position there.
pub proof fn lemma_confirmed_agree(s: Seq<BlockModel>, t: Seq<BlockModel>, low: int, upto: int)
    requires
        0 <= low,
        upto <= s.len(),
        upto <= t.len(),
        forall|k: int| low <= k < upto ==> s[k].has_consensus() == t[k].has_consensus(),
    ensures
        last_confirmed_in(s, low, upto) == last_confirmed_in(t, low, upto),
    decreases upto - low,
{
    if upto > low {
        lemma_confirmed_agree(s, t, low, upto - 1);
    }
}

/// The last confirmed position holds a confirmed block and none after it is confirmed; there
/// is none exactly where no block is confirmed.
pub proof fn law_last_confirmed_is_highest(s: Seq<BlockModel>, low: int, upto: int)
    requires
        0 <= low,
        upto <= s.len(),
    ensures
        match last_confirmed_in(s, low, upto) {
            Some(i) => low <= i < upto && s[i].has_consensus() && forall|k: int|
                i < k < upto ==> !s[k].has_consensus(),
            None => forall|k: int| low <= k < upto ==> !s[k].has_consensus(),
        },
    decreases upto - low,
{
    if upto > low {
        law_last_confirmed_is_highest(s, low, upto - 1);
    }
}

/// A block that has just been derived has no vote and so no consensus.
pub proof fn lemma_pending(s: Seq<BlockModel>, event: NetworkEvent)
    ensures
        !next_block(s, event).has_consensus(),
        next_block(s, event).event == event,
        s.len() > 0 ==> next_block(s, event).members.dom() == s.last().applied(),
{
    let b = next_block(s, event);
    assert(b.voters() =~= Set::empty());
    if s.len() > 0 {
        assert(b.members.dom() =~= s.last().applied());
    }
}

impl View for Chain {
    type V = Seq<BlockModel>;

    open spec fn view(&self) -> Seq<BlockModel> {
        self.ledger().map_values(|block: Block| block@)
    }
}

impl Chain {
    /// The blocks in their order.
    pub closed spec fn ledger(&self) -> Seq<Block> {
        self.blocks@
    }

    /// Every block is well formed, no two share an identity, and each but the first has the
    /// members that its predecessor produces.
    pub open spec fn wf(&self) -> bool {
        &&& forall|k: int| 0 <= k < self.ledger().len() ==> (#[trigger] self.ledger()[k]).wf()
        &&& distinct_ids(self@)
        &&& linked(self@)
    }

    /// The empty chain.
    pub fn new() -> (chain: Chain)
        ensures
            chain.wf(),
            chain@ == Seq::<BlockModel>::empty(),
    {
        let chain = Chain { blocks: Vec::new() };
        assert(chain@ =~= Seq::<BlockModel>::empty());
        chain
    }

    /// The number of blocks.
    pub fn len(&self) -> (len: usize)
        ensures
            len == self@.len(),
    {
        self.blocks.len()
    }

    /// The blocks in their order.
    pub fn as_blocks(&self) -> (blocks: &Vec<Block>)
        ensures
            blocks@ == self.ledger(),
    {
        &self.blocks
    }

    /// A copy of the chain.
    pub fn duplicate(&self) -> (chain: Chain)
        ensures
            chain@ == self@,
            self.wf() ==> chain.wf(),
    {
        let mut blocks: Vec<Block> = Vec::new();
        let mut i: usize = 0;
        while i < self.blocks.len()
            invariant
                i <= self.blocks.len(),
                blocks.len() == i,
                forall|k: int|
                    0 <= k < i ==> (#[trigger] blocks[k])@ == self.blocks[k]@ && (self.blocks[k].wf()
                        ==> blocks[k].wf()),
            decreases self.blocks.len() - i,
        {
            let block = self.blocks[i].duplicate();
            blocks.push(block);
            i += 1;
        }
        let chain = Chain { blocks };
        assert(chain@ =~= self@);
        chain
    }

    /// Puts `block` at the tail and returns its identity.
    pub fn append(&mut self, block: Block) -> (id: BlockId)
        requires
            old(self).wf(),
            block.wf(),
            !holds(old(self)@, BlockId(block.event)),
            old(self)@.len() > 0 ==> block@.members.dom() == old(self)@.last().applied(),
        ensures
            final(self).wf(),
            final(self)@ == old(self)@.push(block@),
            id == BlockId(block.event),
    {
        let id = block.get_id();
        self.blocks.push(block);
        proof {
            let before = old(self)@;
            let after = self@;
            assert(after =~= before.push(block@));
            assert forall|i: int, j: int| 0 <= i < j < after.len() implies after[i].event
                != after[j].event by {
                if j == before.len() {
                    assert(before[i].event != id.0);
                } else {
                    assert(before[i].event != before[j].event);
                }
            }
            assert forall|i: int| 0 < i < after.len() implies #[trigger] link_at(after, i) by {
                if i < before.len() {
                    assert(link_at(before, i));
                }
            }
        }
        id
    }

    /// The position of the block with identity `id`.
    pub fn index_of(&self, id: BlockId) -> (found: Option<usize>)
        requires
            self.wf(),
        ensures
            match found {
                Some(i) => holds(self@, id) && i == position(self@, id),
                None => !holds(self@, id),
            },
    {
        let mut i: usize = 0;
        while i < self.blocks.len()
            invariant
                i <= self.blocks.len(),
                self.wf(),
                forall|k: int| 0 <= k < i ==> (#[trigger] self@[k]).event != id.0,
            decreases self.blocks.len() - i,
        {
            if self.blocks[i].event == id.0 {
                proof {
                    assert(self@[i as int].event == id.0);
                    let p = position(self@, id);
                    if p < i {
                        assert(self@[p].event != self@[i as int].event);
                    } else if p > i {
                        assert(self@[i as int].event != self@[p].event);
                    }
                }
                return Some(i);
            }
            i += 1;
        }
        None
    }

    /// The block with identity `id`.
    pub fn get(&self, id: &BlockId) -> (found: Option<&Block>)
        requires
            self.wf(),
        ensures
            match found {
                Some(block) => holds(self@, *id) && block@ == self@[position(self@, *id)]
                    && block.wf(),
                None => !holds(self@, *id),
            },
    {
        match self.index_of(*id) {
            Some(i) => Some(&self.blocks[i]),
            None => None,
        }
    }

    /// The position of the last block that has consensus.
    pub fn last_valid(&self) -> (found: Option<usize>)
        requires
            self.wf(),
        ensures
            match found {
                Some(i) => last_confirmed(self@) == Some(i as int) && i < self@.len(),
                None => last_confirmed(self@).is_none(),
            },
    {
        let mut i: usize = self.blocks.len();
        while i > 0
            invariant
                i <= self.blocks.len(),
                self.wf(),
                last_confirmed(self@) == last_confirmed_in(self@, 0, i as int),
            decreases i,
        {
            if self.blocks[i - 1].has_consensus() {
                return Some(i - 1);
            }
            i -= 1;
        }
        None
    }

    /// The last block that has consensus.
    pub fn last_valid_block(&self) -> (found: Option<&Block>)
        requires
            self.wf(),
        ensures
            match found {
                Some(block) => last_confirmed(self@).is_some() && block@ == self@[last_confirmed(
                    self@,
                ).unwrap()] && block.wf(),
                None => last_confirmed(self@).is_none(),
            },
    {
        match self.last_valid() {
            Some(i) => Some(&self.blocks[i]),
            None => None,
        }
    }
}

impl Chain {
    /// Exchanges the blocks at `index1` and `index2`, then gives every block from the lower of
    /// the two positions on the members that its predecessor produces, keeping the votes on
    /// record. Returns the highest position among those whose block then has consensus.
    pub fn swap_blocks(&mut self, index1: usize, index2: usize) -> (confirmed: Option<usize>)
        requires
            old(self).wf(),
            index1 < old(self)@.len(),
            index2 < old(self)@.len(),
            can_reorder(old(self)@, index1 as int, index2 as int),
        ensures
            final(self).wf(),
            final(self)@ == reordered(old(self)@, index1 as int, index2 as int),
            final(self)@.len() == old(self)@.len(),
            match confirmed {
                Some(i) => Some(i as int) == last_confirmed_in(
                    final(self)@,
                    exchange_start(index1 as int, index2 as int),
                    final(self)@.len() as int,
                ),
                None => last_confirmed_in(
                    final(self)@,
                    exchange_start(index1 as int, index2 as int),
                    final(self)@.len() as int,
                ).is_none(),
            },
    {
        let ghost before = self@;
        let from: usize = self.exchange(index1, index2);
        let ghost start = self@;
        let n: usize = self.blocks.len();
        let mut last: Option<usize> = None;
        let mut i: usize = from;
        while i < n
            invariant
                1 <= from <= i <= n,
                n == self.blocks.len(),
                forall|k: int| 0 <= k < n ==> (#[trigger] self.ledger()[k]).wf(),
                forall|k: int| 0 <= k < n ==> (#[trigger] self@[k]).event == start[k].event,
                forall|k: int| 0 < k < i ==> #[trigger] link_at(self@, k),
                rederived(self@, i as int) == rederived(start, from as int),
                rederivable(self@, i as int),
                match last {
                    Some(c) => Some(c as int) == last_confirmed_in(self@, from as int, i as int),
                    None => last_confirmed_in(self@, from as int, i as int).is_none(),
                },
            decreases n - i,
        {
            let ghost pre = self@;
            let votes = self.blocks[i - 1].apply_event();
            self.blocks[i].adjust_votes(votes);
            proof {
                let keys = pre[i - 1].applied();
                assert(unvoted(keys).dom() =~= keys);
                assert(self@ =~= pre.update(i as int, pre[i as int].adjusted(keys)));
                lemma_confirmed_agree(pre, self@, from as int, i as int);
                assert(self@[i as int].members.dom() =~= keys);
                assert forall|k: int| 0 < k < i + 1 implies #[trigger] link_at(self@, k) by {
                    if k < i {
                        assert(link_at(pre, k));
                    }
                }
            }
            if self.blocks[i].has_consensus() {
                last = Some(i);
            }
            i += 1;
        }
        proof {
            let after = self@;
            assert forall|a: int, b: int| 0 <= a < b < after.len() implies after[a].event
                != after[b].event by {
                assert(start[a].event != start[b].event);
            }
        }
        last
    }

    /// Exchanges the blocks at `index1` and `index2`; where one of them is the first, the
    /// block that then comes first loses its members. Returns the first position whose
    /// members are to be derived anew.
    fn exchange(&mut self, index1: usize, index2: usize) -> (from: usize)
        requires
            old(self).wf(),
            index1 < old(self)@.len(),
            index2 < old(self)@.len(),
        ensures
            final(self)@ == exchanged(old(self)@, index1 as int, index2 as int),
            final(self)@.len() == old(self)@.len(),
            final(self).ledger().len() == old(self)@.len(),
            from == exchange_start(index1 as int, index2 as int),
            1 <= from <= old(self)@.len(),
            forall|k: int|
                0 <= k < final(self).ledger().len() ==> (#[trigger] final(self).ledger()[k]).wf(),
            distinct_ids(final(self)@),
            forall|k: int| 0 < k < from ==> #[trigger] link_at(final(self)@, k),
    {
        let ghost before = self@;
        let first = self.blocks[index1].duplicate();
        let second = self.blocks[index2].duplicate();
        self.blocks.set(index1, second);
        self.blocks.set(index2, first);
        assert(self@ =~= before.update(index1 as int, before[index2 as int]).update(
            index2 as int,
            before[index1 as int],
        ));
        let mut from: usize = if index1 <= index2 { index1 } else { index2 };
        if from == 0 {
            let ghost unset = self@;
            self.blocks[0].adjust_votes(Vec::new());
            proof {
                let none: Seq<(Name, bool)> = Seq::empty();
                assert(crate::block::entries_map(none).dom() =~= Set::empty());
                assert(self@ =~= unset.update(0, unset[0].adjusted(Set::empty())));
            }
            from = 1;
        }
        proof {
            let after = self@;
            assert forall|a: int, b: int| 0 <= a < b < after.len() implies after[a].event
                != after[b].event by {
                let swap = |k: int|
                    if k == index1 as int {
                        index2 as int
                    } else if k == index2 as int {
                        index1 as int
                    } else {
                        k
                    };
                assert(after[a].event == before[swap(a)].event);
                assert(after[b].event == before[swap(b)].event);
                if swap(a) < swap(b) {
                    assert(before[swap(a)].event != before[swap(b)].event);
                } else {
                    assert(before[swap(b)].event != before[swap(a)].event);
                }
            }
            assert forall|k: int| 0 < k < from implies #[trigger] link_at(after, k) by {
                assert(link_at(before, k));
            }
        }
        from
    }

    /// Whether `swap_blocks` can exchange the blocks at `index1` and `index2`: whether every
    /// event that it would apply can be applied. The chain is left as far as the trial went.
    fn try_reorder(&mut self, index1: usize, index2: usize) -> (done: bool)
        requires
            old(self).wf(),
            index1 < old(self)@.len(),
            index2 < old(self)@.len(),
        ensures
            done == can_reorder(old(self)@, index1 as int, index2 as int),
    {
        let from: usize = self.exchange(index1, index2);
        let ghost start = self@;
        let n: usize = self.blocks.len();
        let mut i: usize = from;
        while i < n
            invariant
                1 <= from <= i <= n,
                n == self.blocks.len(),
                forall|k: int| 0 <= k < n ==> (#[trigger] self.ledger()[k]).wf(),
                rederivable(self@, i as int) == can_reorder(
                    old(self)@,
                    index1 as int,
                    index2 as int,
                ),
            decreases n - i,
        {
            if !self.blocks[i - 1].event_applies() {
                assert(!self@[i - 1].event_applies());
                return false;
            }
            let ghost pre = self@;
            let votes = self.blocks[i - 1].apply_event();
            self.blocks[i].adjust_votes(votes);
            proof {
                let keys = pre[i - 1].applied();
                assert(unvoted(keys).dom() =~= keys);
                assert(self@ =~= pre.update(i as int, pre[i as int].adjusted(keys)));
            }
            i += 1;
        }
        true
    }

    /// Whether a block for `event` can be proposed: whether the chain holds one already, is
    /// empty, or ends in a block whose event can be applied.
    pub fn can_propose(&self, event: NetworkEvent) -> (defined: bool)
        requires
            self.wf(),
        ensures
            defined == can_propose(self@, event),
    {
        let n: usize = self.blocks.len();
        self.index_of(BlockId(event)).is_some() || n == 0 || self.blocks[n - 1].event_applies()
    }

    /// Whether `add_vote` can take a vote for `id`: whether `vote_defined` holds.
    pub fn can_add_vote(&self, id: BlockId) -> (defined: bool)
        requires
            self.wf(),
        ensures
            defined == vote_defined(self@, id),
    {
        let mut trial = self.duplicate();
        let index: usize = match trial.index_of(id) {
            Some(i) => i,
            None => {
                let n: usize = trial.blocks.len();
                if n > 0 && !trial.blocks[n - 1].event_applies() {
                    return false;
                }
                trial.propose(id.into_event());
                trial.blocks.len() - 1
            },
        };
        proof {
            let t = trial@;
            assert(t == proposed(self@, id.0));
            assert(t[index as int].event == id.0);
            let p = position(t, id);
            if p < index {
                assert(t[p].event != t[index as int].event);
            } else if p > index {
                assert(t[index as int].event != t[p].event);
            }
        }
        if trial.blocks[index].has_consensus() {
            return true;
        }
        let n: usize = trial.blocks.len();
        let swap_index: usize = match trial.last_valid() {
            Some(i) => {
                assert(i < n);
                i + 1
            },
            None => 0,
        };
        if swap_index >= n {
            return false;
        }
        trial.try_reorder(index, swap_index)
    }

    /// Takes the vote of `voter` for the block `id`. A block that is confirmed already only
    /// records the vote. Any other block, derived from the tail first if the chain does not
    /// hold it, moves to the position right after the last confirmed block, and the blocks
    /// from there on get their members anew; the vote is recorded there. Returns whether the
    /// block has consensus now and had none before.
    pub fn add_vote(&mut self, id: BlockId, voter: Name) -> (confirmed: bool)
        requires
            old(self).wf(),
            vote_defined(old(self)@, id),
        ensures
            final(self).wf(),
            final(self)@ == after_vote(old(self)@, id, voter),
            confirmed == vote_confirms(old(self)@, id, voter),
            final(self)@.len() == proposed(old(self)@, id.0).len(),
    {
        let index: usize = match self.index_of(id) {
            Some(i) => i,
            None => {
                self.propose(id.into_event());
                self.blocks.len() - 1
            },
        };
        proof {
            let t = self@;
            assert(t == proposed(old(self)@, id.0));
            assert(t[index as int].event == id.0);
            let p = position(t, id);
            if p < index {
                assert(t[p].event != t[index as int].event);
            } else if p > index {
                assert(t[index as int].event != t[p].event);
            }
        }
        self.vote_at(index, voter)
    }

    /// Takes the vote of `voter` for the block at `index`.
    fn vote_at(&mut self, index: usize, voter: Name) -> (confirmed: bool)
        requires
            old(self).wf(),
            index < old(self)@.len(),
            can_vote_at(old(self)@, index as int),
        ensures
            final(self).wf(),
            final(self)@ == voted_at(old(self)@, index as int, voter),
            confirmed == confirms_at(old(self)@, index as int, voter),
            final(self)@.len() == old(self)@.len(),
    {
        let ghost t = self@;
        let agreed = self.blocks[index].has_consensus();
        assert(agreed == t[index as int].has_consensus());
        if agreed {
            self.record_vote(index, voter);
            false
        } else {
            let n: usize = self.blocks.len();
            let swap_index: usize = match self.last_valid() {
                Some(i) => {
                    assert(i < n);
                    i + 1
                },
                None => 0,
            };
            assert(swap_index as int == frontier(t));
            assert(swap_index < t.len());
            assert(can_reorder(t, index as int, swap_index as int));
            let _ = self.swap_blocks(index, swap_index);
            let ghost r = self@;
            self.record_vote(swap_index, voter);
            assert(self@ == r.update(swap_index as int, r[swap_index as int].with_vote(voter)));
            let confirmed = self.blocks[swap_index].has_consensus();
            assert(confirmed == self@[swap_index as int].has_consensus());
            confirmed
        }
    }

    /// Records the vote of `voter` in the block at `index`.
    fn record_vote(&mut self, index: usize, voter: Name)
        requires
            old(self).wf(),
            index < old(self)@.len(),
        ensures
            final(self).wf(),
            final(self)@ == old(self)@.update(index as int, old(self)@[index as int].with_vote(voter)),
    {
        let ghost t = self@;
        self.blocks[index].add_vote(voter);
        proof {
            assert(self@ =~= t.update(index as int, t[index as int].with_vote(voter)));
            lemma_vote_keeps_links(t, index as int, voter);
        }
    }

    /// Puts a pending block for `event` at the tail, derived from the block that was there.
    fn propose(&mut self, event: NetworkEvent)
        requires
            old(self).wf(),
            !holds(old(self)@, BlockId(event)),
            old(self)@.len() == 0 || old(self)@.last().event_applies(),
        ensures
            final(self).wf(),
            final(self)@ == proposed(old(self)@, event),
            final(self)@.len() == old(self)@.len() + 1,
            final(self)@.last().event == event,
    {
        let block = if self.blocks.len() == 0 {
            Block::genesis(event)
        } else {
            self.blocks[self.blocks.len() - 1].from_event(event)
        };
        proof {
            lemma_pending(self@, event);
        }
        let _ = self.append(block);
    }

    /// Proposes that `node` be added: puts a pending block for it at the tail, derived from
    /// the block that was there, and returns its identity; does nothing where the chain
    /// holds a block for that event already.
    pub fn add_node(&mut self, node: Name) -> (added: Option<BlockId>)
        requires
            old(self).wf(),
            can_propose(old(self)@, NetworkEvent::NodeGained(node)),
        ensures
            final(self).wf(),
            final(self)@ == proposed(old(self)@, NetworkEvent::NodeGained(node)),
            added == (if holds(old(self)@, BlockId(NetworkEvent::NodeGained(node))) {
                None
            } else {
                Some(BlockId(NetworkEvent::NodeGained(node)))
            }),
    {
        let block_id = BlockId(NetworkEvent::NodeGained(node));
        if self.index_of(block_id).is_none() {
            self.propose(NetworkEvent::NodeGained(node));
            Some(block_id)
        } else {
            None
        }
    }

    /// Proposes that `node` be removed: puts a pending block for it at the tail, derived from
    /// the block that was there, and returns its identity; does nothing where the chain is
    /// empty or holds a block for that event already.
    pub fn remove_node(&mut self, node: Name) -> (removed: Option<BlockId>)
        requires
            old(self).wf(),
            can_propose(old(self)@, NetworkEvent::NodeLost(node)),
        ensures
            final(self).wf(),
            final(self)@ == (if old(self)@.len() == 0 {
                old(self)@
            } else {
                proposed(old(self)@, NetworkEvent::NodeLost(node))
            }),
            added_id(old(self)@, NetworkEvent::NodeLost(node), removed),
    {
        let block_id = BlockId(NetworkEvent::NodeLost(node));
        if self.index_of(block_id).is_none() {
            if self.blocks.len() == 0 {
                return None;
            }
            self.propose(NetworkEvent::NodeLost(node));
            Some(block_id)
        } else {
            None
        }
    }
}

/// The identity that a removal returns: that of the new block where one was put on a chain
/// that was not empty, and none otherwise.
pub open spec fn added_id(s: Seq<BlockModel>, event: NetworkEvent, id: Option<BlockId>) -> bool {
    id == (if s.len() == 0 || holds(s, BlockId(event)) {
        None
    } else {
        Some(BlockId(event))
    })
}

/// A vote changes neither the members of a block nor what its event produces.
pub proof fn lemma_vote_keeps_links(s: Seq<BlockModel>, i: int, voter: Name)
    requires
        0 <= i < s.len(),
        linked(s),
        distinct_ids(s),
    ensures
        linked(s.update(i, s[i].with_vote(voter))),
        distinct_ids(s.update(i, s[i].with_vote(voter))),
{
    let b = s[i].with_vote(voter);
    let t = s.update(i, b);
    assert(b.members.dom() =~= s[i].members.dom());
    assert(b.applied() =~= s[i].applied());
    assert forall|k: int| 0 < k < t.len() implies #[trigger] link_at(t, k) by {
        assert(link_at(s, k));
    }
    assert forall|a: int, b: int| 0 <= a < b < t.len() implies t[a].event != t[b].event by {
        assert(s[a].event != s[b].event);
    }
}

/// In a well-formed chain every block but the first has exactly the members that the event
/// of the block before it produces from that block's members.
pub proof fn law_members_follow(chain: Chain, i: int)
    requires
        chain.wf(),
        0 < i < chain@.len(),
    ensures
        chain@[i].members.dom() == chain@[i - 1].applied(),
{
    assert(link_at(chain@, i));
}

/// Proposing an event twice is proposing it once: the first proposal adds at most one block,
/// after it the chain holds a block for the event, and the second changes nothing.
pub proof fn law_proposal_idempotent(s: Seq<BlockModel>, event: NetworkEvent)
    ensures
        holds(proposed(s, event), BlockId(event)),
        proposed(proposed(s, event), event) == proposed(s, event),
        proposed(s, event).len() == s.len() + (if holds(s, BlockId(event)) { 0int } else { 1int }),
{
    let t = proposed(s, event);
    if !holds(s, BlockId(event)) {
        assert(t[s.len() as int].event == event);
    }
}

/// A vote for a confirmed block moves no block: every other block stays as it is, and the
/// block itself only takes the vote.
pub proof fn law_confirmed_vote_moves_nothing(s: Seq<BlockModel>, id: BlockId, voter: Name)
    requires
        distinct_ids(s),
        holds(s, id),
        s[position(s, id)].has_consensus(),
    ensures
        after_vote(s, id, voter) == s.update(position(s, id), s[position(s, id)].with_vote(voter)),
        !vote_confirms(s, id, voter),
{
}

/// A vote takes no consensus away: a block of finitely many members that has consensus has
/// it after any further vote.
pub proof fn law_consensus_is_kept(block: BlockModel, voter: Name)
    requires
        block.members.dom().finite(),
        block.has_consensus(),
    ensures
        block.with_vote(voter).has_consensus(),
{
    let after = block.with_vote(voter);
    assert(after.members.dom() =~= block.members.dom());
    assert(after.voters().subset_of(after.members.dom()));
    assert(block.voters().subset_of(after.voters()));
    vstd::set_lib::lemma_len_subset(after.voters(), after.members.dom());
    vstd::set_lib::lemma_len_subset(block.voters(), after.voters());
}

/// Votes for a confirmed block can arrive in either order: the chain is the same after both,
/// and the block stays confirmed.
pub proof fn law_confirmed_votes_commute(
    s: Seq<BlockModel>,
    id: BlockId,
    first: Name,
    second: Name,
)
    requires
        distinct_ids(s),
        holds(s, id),
        s[position(s, id)].has_consensus(),
        s[position(s, id)].members.dom().finite(),
    ensures
        after_vote(after_vote(s, id, first), id, second) == after_vote(
            after_vote(s, id, second),
            id,
            first,
        ),
        after_vote(after_vote(s, id, first), id, second)[position(s, id)].has_consensus(),
{
    let p = position(s, id);
    let b = s[p];
    let one = s.update(p, b.with_vote(first));
    let two = s.update(p, b.with_vote(second));
    assert(one == after_vote(s, id, first));
    assert(two == after_vote(s, id, second));
    assert(one[p].event == id.0);
    assert(two[p].event == id.0);
    assert forall|i: int, j: int| 0 <= i < j < one.len() implies one[i].event != one[j].event by {
        assert(s[i].event != s[j].event);
    }
    assert forall|i: int, j: int| 0 <= i < j < two.len() implies two[i].event != two[j].event by {
        assert(s[i].event != s[j].event);
    }
    let p1 = position(one, id);
    let p2 = position(two, id);
    if p1 < p {
        assert(one[p1].event != one[p].event);
    } else if p1 > p {
        assert(one[p].event != one[p1].event);
    }
    if p2 < p {
        assert(two[p2].event != two[p].event);
    } else if p2 > p {
        assert(two[p].event != two[p2].event);
    }
    law_consensus_is_kept(b, first);
    law_consensus_is_kept(b, second);
    crate::block::law_votes_commute(b, first, second);
    assert(b.with_vote(first).members.dom() =~= b.members.dom());
    law_consensus_is_kept(b.with_vote(first), second);
    assert(after_vote(one, id, second) =~= after_vote(two, id, first));
}

/// What deriving the members anew from `from` on yields, position by position: the blocks
/// before `from` stay, and each block from there on is adjusted to what the block before it,
/// as it then is, produces. No block loses a vote on record or gains one.
pub proof fn law_rederived_pointwise(s: Seq<BlockModel>, from: int)
    requires
        1 <= from,
    ensures
        rederived(s, from).len() == s.len(),
        forall|k: int| 0 <= k < from && k < s.len() ==> #[trigger] rederived(s, from)[k] == s[k],
        forall|k: int|
            from <= k < s.len() ==> #[trigger] rederived(s, from)[k] == s[k].adjusted(
                rederived(s, from)[k - 1].applied(),
            ),
        forall|k: int, name: Name|
            0 <= k < s.len() ==> #[trigger] rederived(s, from)[k].has_voted(name) == s[k].has_voted(
                name,
            ),
    decreases s.len() - from,
{
    if from < s.len() {
        let next = s.update(from, s[from].adjusted(s[from - 1].applied()));
        law_rederived_pointwise(next, from + 1);
        let r = rederived(s, from);
        assert(r == rederived(next, from + 1));
        assert forall|k: int| from <= k < s.len() implies #[trigger] r[k] == s[k].adjusted(
            r[k - 1].applied(),
        ) by {
            if k == from {
                assert(r[from] == next[from]);
                assert(r[from - 1] == next[from - 1]);
            } else {
                assert(next[k] == s[k]);
            }
        }
        assert forall|k: int, name: Name| 0 <= k < s.len() implies #[trigger] r[k].has_voted(name)
            == s[k].has_voted(name) by {
            assert(r[k].has_voted(name) == next[k].has_voted(name));
        }
    }
}

/// Reordering loses no vote: after the blocks at `i` and `j` have changed places, each
/// block has the votes on record that the block which came to its position had.
pub proof fn law_reordering_keeps_votes(s: Seq<BlockModel>, i: int, j: int, k: int, name: Name)
    requires
        0 <= i < s.len(),
        0 <= j < s.len(),
        0 <= k < s.len(),
    ensures
        reordered(s, i, j).len() == s.len(),
        reordered(s, i, j)[k].event == s[if k == i { j } else if k == j { i } else { k }].event,
        reordered(s, i, j)[k].has_voted(name) == s[if k == i {
            j
        } else if k == j {
            i
        } else {
            k
        }].has_voted(name),
{
    let t = exchanged(s, i, j);
    law_rederived_pointwise(t, exchange_start(i, j));
    let r = reordered(s, i, j);
    assert(r[k].has_voted(name) == t[k].has_voted(name));
    if k >= exchange_start(i, j) {
        assert(r[k] == t[k].adjusted(r[k - 1].applied()));
    } else {
        assert(r[k] == t[k]);
    }
}

} // verus!
