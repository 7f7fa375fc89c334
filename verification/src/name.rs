//! The address space: fixed-length names and the bit prefixes that partition them.

use vstd::prelude::*;

verus! {

/// A 64-bit address of a peer.
#[derive(Clone, Copy, Debug, PartialEq, Eq, Structural, PartialOrd, Ord, Hash)]
pub struct Name(pub u64);

/// The leading `bit_count` bits of a name; it stands for every name that starts with them.
#[derive(Clone, Copy, Debug, PartialEq, Eq, Structural, PartialOrd, Ord, Hash)]
pub struct Prefix {
    bit_count: u64,
    bits: u64,
}

/// The word whose `bit_count` leading bits are set and whose other bits are clear.
pub open spec fn leading_mask(bit_count: u64) -> u64 {
    if bit_count == 0 {
        0u64
    } else if bit_count >= 64 {
        u64::MAX
    } else {
        !(u64::MAX >> bit_count)
    }
}

/// Whether exactly one bit of `word` is set.
pub open spec fn single_bit(word: u64) -> bool {
    word != 0 && word & ((word - 1) as u64) == 0
}

fn mask_of(bit_count: u64) -> (mask: u64)
    ensures
        mask == leading_mask(bit_count),
{
    if bit_count == 0 {
        0u64
    } else if bit_count >= 64 {
        u64::MAX
    } else {
        !(u64::MAX >> bit_count)
    }
}

impl Prefix {
    /// The number of leading bits that the prefix fixes.
    pub closed spec fn len(self) -> u64 {
        self.bit_count
    }

    /// The fixed bits, at the top of the word; every bit below them is clear.
    pub closed spec fn leading_bits(self) -> u64 {
        self.bits
    }

    /// A prefix fixes at most 64 bits and holds nothing below them.
    pub open spec fn wf(self) -> bool {
        self.len() <= 64 && self.leading_bits() & leading_mask(self.len())
            == self.leading_bits()
    }

    /// Whether `name` starts with the bits of this prefix.
    pub open spec fn matches_spec(self, name: Name) -> bool {
        (self.leading_bits() ^ name.0) & leading_mask(self.len()) == 0
    }

    /// The number of bits that both prefixes fix.
    pub open spec fn shared_len(self, other: Prefix) -> u64 {
        if self.len() <= other.len() {
            self.len()
        } else {
            other.len()
        }
    }

    /// The bits in which the two prefixes differ, among those that both fix.
    pub open spec fn difference(self, other: Prefix) -> u64 {
        (self.leading_bits() ^ other.leading_bits()) & leading_mask(self.shared_len(other))
    }

    /// Whether one prefix is a prefix of the other.
    pub open spec fn compatible_spec(self, other: Prefix) -> bool {
        self.difference(other) == 0
    }

    /// Whether the two prefixes differ in exactly one bit of those that both fix.
    pub open spec fn neighbour_spec(self, other: Prefix) -> bool {
        single_bit(self.difference(other))
    }

    /// The prefix of the first `bit_count` bits of `name` (of all 64 where `bit_count` is larger).
    pub fn new(bit_count: u64, name: Name) -> (prefix: Prefix)
        ensures
            prefix.wf(),
            prefix.len() == (if bit_count <= 64 { bit_count } else { 64u64 }),
            prefix.leading_bits() == name.0 & leading_mask(prefix.len()),
    {
        let count: u64 = if bit_count <= 64 { bit_count } else { 64 };
        let mask: u64 = mask_of(count);
        let word: u64 = name.0;
        let bits: u64 = word & mask;
        proof {
            assert((word & mask) & mask == word & mask) by (bit_vector);
        }
        Prefix { bit_count: count, bits }
    }

    /// The prefix of no bits.
    pub closed spec fn empty_spec() -> Prefix {
        Prefix { bit_count: 0, bits: 0 }
    }

    /// The prefix of no bits, which every name matches.
    pub fn empty() -> (prefix: Prefix)
        ensures
            prefix == Prefix::empty_spec(),
            prefix.wf(),
            prefix.len() == 0,
            prefix.leading_bits() == 0,
            forall|name: Name| prefix.matches_spec(name),
    {
        let prefix = Prefix { bit_count: 0, bits: 0 };
        proof {
            assert(0u64 & 0u64 == 0u64) by (bit_vector);
            assert forall|name: Name| prefix.matches_spec(name) by {
                let word: u64 = name.0;
                assert((0u64 ^ word) & 0u64 == 0u64) by (bit_vector);
            }
        }
        prefix
    }

    /// The prefix of the first `bit_count` bits of the byte `name`, taken as the top byte of a name.
    pub fn short(bit_count: u8, name: u8) -> (prefix: Prefix)
        ensures
            prefix.wf(),
            prefix.len() == (if bit_count <= 64 { bit_count as u64 } else { 64u64 }),
            prefix.leading_bits() == ((name as u64) << 56) & leading_mask(prefix.len()),
    {
        Prefix::new(bit_count as u64, Name((name as u64) << 56))
    }

    /// The number of leading bits that the prefix fixes.
    pub fn bit_count(&self) -> (count: u64)
        ensures
            count == self.len(),
    {
        self.bit_count
    }

    /// The smallest name that matches the prefix.
    pub fn lower_bound(&self) -> (name: Name)
        ensures
            name.0 == self.leading_bits(),
    {
        Name(self.bits)
    }

    /// The name that starts with the bits of this prefix and goes on as `name` does.
    pub fn substituted_in(&self, name: Name) -> (out: Name)
        requires
            self.wf(),
        ensures
            out.0 == self.leading_bits() | (name.0 & !leading_mask(self.len())),
            self.matches_spec(out),
    {
        let mask: u64 = mask_of(self.bit_count);
        let bits: u64 = self.bits;
        let word: u64 = name.0;
        proof {
            assert(bits & mask == bits ==> (bits ^ (bits | (word & !mask))) & mask == 0)
                by (bit_vector);
        }
        Name(bits | (word & !mask))
    }

    /// Whether `name` starts with the bits of this prefix.
    pub fn matches(&self, name: Name) -> (found: bool)
        ensures
            found == self.matches_spec(name),
    {
        (self.bits ^ name.0) & mask_of(self.bit_count) == 0
    }

    fn differing_bits(&self, other: &Prefix) -> (word: u64)
        ensures
            word == self.difference(*other),
    {
        let shared: u64 = if self.bit_count <= other.bit_count {
            self.bit_count
        } else {
            other.bit_count
        };
        (self.bits ^ other.bits) & mask_of(shared)
    }

    /// Whether one prefix is a prefix of the other.
    pub fn is_compatible(&self, other: &Prefix) -> (found: bool)
        ensures
            found == self.compatible_spec(*other),
    {
        self.differing_bits(other) == 0
    }

    /// Whether the two prefixes differ in exactly one bit of those that both fix.
    pub fn is_neighbour(&self, other: &Prefix) -> (found: bool)
        ensures
            found == self.neighbour_spec(*other),
    {
        let word: u64 = self.differing_bits(other);
        word != 0 && word & (word - 1) == 0
    }
}

/// A shorter mask lies within a longer one.
proof fn lemma_mask_nested(a: u64, b: u64)
    requires
        a <= b,
    ensures
        leading_mask(a) & leading_mask(b) == leading_mask(a),
{
    let ma = leading_mask(a);
    if a == 0 {
        let mb = leading_mask(b);
        assert(0u64 & mb == 0u64) by (bit_vector);
    } else if b >= 64 {
        assert(ma & u64::MAX == ma) by (bit_vector);
    } else {
        assert(!(u64::MAX >> a) & !(u64::MAX >> b) == !(u64::MAX >> a)) by (bit_vector)
            requires
                0 < a <= b < 64,
        ;
    }
}

/// The mask of one more bit is the mask with the next bit added, which was not in it.
proof fn lemma_mask_grows(len: u64)
    requires
        len < 64,
    ensures
        leading_mask((len + 1) as u64) == leading_mask(len) | (1u64 << ((63 - len) as u64)),
        leading_mask(len) & (1u64 << ((63 - len) as u64)) == 0,
{
    if len == 0 {
        assert(!(u64::MAX >> 1u64) == 0u64 | (1u64 << 63u64)) by (bit_vector);
        assert(0u64 & (1u64 << 63u64) == 0u64) by (bit_vector);
    } else if len == 63 {
        assert(u64::MAX == !(u64::MAX >> 63u64) | (1u64 << 0u64)) by (bit_vector);
        assert(!(u64::MAX >> 63u64) & (1u64 << 0u64) == 0u64) by (bit_vector);
    } else {
        let next: u64 = (len + 1) as u64;
        let shift: u64 = (63 - len) as u64;
        assert(!(u64::MAX >> next) == !(u64::MAX >> len) | (1u64 << shift)) by (bit_vector)
            requires
                0 < len < 63,
                next == len + 1,
                shift == 63 - len,
        ;
        assert(!(u64::MAX >> len) & (1u64 << shift) == 0u64) by (bit_vector)
            requires
                0 < len < 63,
                shift == 63 - len,
        ;
    }
}

impl Prefix {
    /// Whether every name that matches this prefix matches one of `prefixes`.
    pub open spec fn covered_by_spec(self, prefixes: Seq<Prefix>) -> bool {
        forall|name: Name| #[trigger]
            self.matches_spec(name) ==> matched_by(prefixes, name)
    }

    /// The prefix with one more bit, `bit`.
    pub fn pushed(&self, bit: bool) -> (longer: Prefix)
        requires
            self.wf(),
            self.len() < 64,
        ensures
            longer.wf(),
            longer.len() == self.len() + 1,
            forall|name: Name| #[trigger] longer.matches_spec(name) ==> self.matches_spec(name),
            forall|name: Name|
                self.matches_spec(name) ==> (#[trigger] longer.matches_spec(name) <==> (name.0
                    & (1u64 << ((63 - self.len()) as u64)) != 0) == bit),
    {
        let place: u64 = 1u64 << (63 - self.bit_count);
        let bits: u64 = if bit { self.bits | place } else { self.bits };
        let longer = Prefix { bit_count: self.bit_count + 1, bits };
        proof {
            lemma_mask_grows(self.bit_count);
            let shift: u64 = (63 - self.bit_count) as u64;
            let old_bits: u64 = self.bits;
            let mask: u64 = leading_mask(self.bit_count);
            let grown: u64 = leading_mask((self.bit_count + 1) as u64);
            assert(old_bits & mask == old_bits && grown == mask | place && mask & place == 0
                ==> (old_bits | place) & grown == old_bits | place) by (bit_vector);
            assert(old_bits & mask == old_bits && grown == mask | place && mask & place == 0
                ==> old_bits & grown == old_bits) by (bit_vector);
            assert forall|name: Name| #[trigger] longer.matches_spec(name) implies self.matches_spec(
                name,
            ) by {
                let word: u64 = name.0;
                assert((bits ^ word) & grown == 0 && grown == mask | place && mask & place == 0
                    && (bits == old_bits || bits == old_bits | place) ==> (old_bits ^ word) & mask
                    == 0) by (bit_vector);
            }
            assert forall|name: Name| self.matches_spec(name) implies (#[trigger] longer.matches_spec(
                name,
            ) <==> (name.0 & (1u64 << ((63 - self.len()) as u64)) != 0) == bit) by {
                let word: u64 = name.0;
                assert(place == 1u64 << shift && shift < 64 ==> (word & place == 0 || word & place
                    == place)) by (bit_vector);
                assert(place == 1u64 << shift && shift < 64 ==> place != 0) by (bit_vector);
                assert((old_bits ^ word) & mask == 0 && old_bits & mask == old_bits && grown == mask
                    | place && mask & place == 0 ==> (((old_bits | place) ^ word) & grown == 0
                    <==> word & place == place)) by (bit_vector);
                assert((old_bits ^ word) & mask == 0 && old_bits & mask == old_bits && grown == mask
                    | place && mask & place == 0 ==> ((old_bits ^ word) & grown == 0 <==> word
                    & place == 0)) by (bit_vector);
            }
        }
        longer
    }

    /// Whether every name that matches this prefix matches one of `prefixes`.
    pub fn is_covered_by(&self, prefixes: &Vec<Prefix>) -> (covered: bool)
        requires
            self.wf(),
            forall|k: int| 0 <= k < prefixes@.len() ==> (#[trigger] prefixes@[k]).wf(),
        ensures
            covered == self.covered_by_spec(prefixes@),
        decreases 64 - self.len(),
    {
        let mut longer = false;
        let mut i: usize = 0;
        while i < prefixes.len()
            invariant
                i <= prefixes.len(),
                self.wf(),
                forall|k: int| 0 <= k < prefixes@.len() ==> (#[trigger] prefixes@[k]).wf(),
                forall|k: int|
                    0 <= k < i ==> !((#[trigger] prefixes@[k]).len() <= self.len()
                        && prefixes@[k].compatible_spec(*self)),
                longer == exists|k: int| 0 <= k < i && (#[trigger] prefixes@[k]).len() > self.len(),
            decreases prefixes.len() - i,
        {
            let other = prefixes[i];
            if other.bit_count <= self.bit_count && other.is_compatible(self) {
                proof {
                    lemma_mask_nested(other.len(), self.len());
                    assert forall|name: Name| #[trigger] self.matches_spec(name) implies matched_by(
                        prefixes@,
                        name,
                    ) by {
                        let word: u64 = name.0;
                        let ours: u64 = self.leading_bits();
                        let theirs: u64 = other.leading_bits();
                        let short: u64 = leading_mask(other.len());
                        let long: u64 = leading_mask(self.len());
                        assert((theirs ^ ours) & short == 0 && (ours ^ word) & long == 0 && short
                            & long == short ==> (theirs ^ word) & short == 0) by (bit_vector);
                        assert(prefixes@[i as int].matches_spec(name));
                    }
                }
                return true;
            }
            if other.bit_count > self.bit_count {
                longer = true;
            }
            i += 1;
        }
        if !longer || self.bit_count >= 64 {
            proof {
                let name = Name(self.leading_bits());
                let ours: u64 = self.leading_bits();
                let long: u64 = leading_mask(self.len());
                assert((ours ^ ours) & long == 0) by (bit_vector);
                assert(self.matches_spec(name));
                assert forall|k: int| 0 <= k < prefixes@.len() implies !(#[trigger] prefixes@[k]).matches_spec(
                    name,
                ) by {
                    let other = prefixes@[k];
                    assert(other.len() <= self.len());
                }
                assert(!matched_by(prefixes@, name));
            }
            return false;
        }
        let zero = self.pushed(false);
        let one = self.pushed(true);
        let covered = zero.is_covered_by(prefixes) && one.is_covered_by(prefixes);
        proof {
            if !zero.covered_by_spec(prefixes@) {
                let name = choose|name: Name| #[trigger]
                    zero.matches_spec(name) && !matched_by(prefixes@, name);
                assert(self.matches_spec(name));
            } else if !one.covered_by_spec(prefixes@) {
                let name = choose|name: Name| #[trigger]
                    one.matches_spec(name) && !matched_by(prefixes@, name);
                assert(self.matches_spec(name));
            } else {
                assert forall|name: Name| #[trigger] self.matches_spec(name) implies matched_by(
                    prefixes@,
                    name,
                ) by {
                    if name.0 & (1u64 << ((63 - self.len()) as u64)) != 0 {
                        assert(one.matches_spec(name));
                    } else {
                        assert(zero.matches_spec(name));
                    }
                }
            }
        }
        covered
    }
}

/// Whether `name` matches one of `prefixes`.
pub open spec fn matched_by(prefixes: Seq<Prefix>, name: Name) -> bool {
    exists|k: int| 0 <= k < prefixes.len() && (#[trigger] prefixes[k]).matches_spec(name)
}

} // verus!
