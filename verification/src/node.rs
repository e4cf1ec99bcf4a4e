//! The values the accumulator is built from and the values it emits.

use vstd::prelude::*;

use crate::schedule::NetworkUpgrade;

verus! {

/// What one block contributes to the accumulator: its height and the digests
/// the construction consumes (the block itself and the two shielded-pool
/// commitment-tree roots as of that height).
#[derive(Clone, Copy, PartialEq, Eq, Structural, Debug)]
pub struct LeafData {
    pub height: u32,
    pub block_digest: u64,
    pub sapling_root: u64,
    pub orchard_root: u64,
}

/// Key of one persisted accumulator node: the upgrade epoch it belongs to and
/// its zero-based position in that epoch's emission order.
#[derive(Clone, Copy, PartialEq, Eq, Structural, Debug)]
pub struct HistoryNodeIndex {
    pub upgrade: NetworkUpgrade,
    pub index: u32,
}

/// One node of the accumulator. A node is determined by the leaves it covers:
/// a leaf node covers one block, a parent covers the concatenation of its
/// children's spans.
#[derive(Debug)]
pub struct HistoryNode {
    pub leaves: Vec<LeafData>,
}

impl View for HistoryNode {
    type V = Seq<LeafData>;

    open spec fn view(&self) -> Seq<LeafData> {
        self.leaves@
    }
}

impl HistoryNode {
    /// An owned copy of this node.
    pub fn duplicate(&self) -> (r: HistoryNode)
        ensures
            r@ == self@,
    {
        let leaves = self.leaves.clone();
        proof {
            assert(leaves@ =~= self.leaves@);
        }
        HistoryNode { leaves }
    }
}

impl PartialEq for HistoryNode {
    fn eq(&self, other: &HistoryNode) -> (r: bool) {
        if self.leaves.len() != other.leaves.len() {
            return false;
        }
        let mut i: usize = 0;
        while i < self.leaves.len()
            invariant
                i <= self.leaves.len(),
                self.leaves.len() == other.leaves.len(),
                forall|j: int| 0 <= j < i ==> self.leaves@[j] == other.leaves@[j],
            decreases self.leaves.len() - i,
        {
            if self.leaves[i] != other.leaves[i] {
                return false;
            }
            i += 1;
        }
        proof {
            assert(self@ =~= other@);
        }
        true
    }
}

impl vstd::std_specs::cmp::PartialEqSpecImpl for HistoryNode {
    open spec fn obeys_eq_spec() -> bool {
        true
    }

    open spec fn eq_spec(&self, other: &HistoryNode) -> bool {
        self@ == other@
    }
}

/// The root of an accumulator: the data from which the root hash is derived.
/// Two accumulators have the same root hash exactly when their sizes, their
/// current heights and their peak node sets agree.
#[derive(Debug)]
pub struct TreeRoot {
    pub size: u64,
    pub height: u32,
    pub peaks: Vec<HistoryNode>,
}

impl TreeRoot {
    pub open spec fn peaks_view(&self) -> Seq<Seq<LeafData>> {
        self.peaks@.map(|i: int, n: HistoryNode| n@)
    }

    /// Whether the two roots are the same root hash.
    pub fn matches(&self, other: &TreeRoot) -> (b: bool)
        ensures
            b == (self.size == other.size && self.height == other.height
                && self.peaks_view() == other.peaks_view()),
    {
        if self.size != other.size || self.height != other.height {
            return false;
        }
        if self.peaks.len() != other.peaks.len() {
            proof {
                assert(self.peaks_view().len() != other.peaks_view().len());
            }
            return false;
        }
        let mut i: usize = 0;
        while i < self.peaks.len()
            invariant
                i <= self.peaks.len(),
                self.peaks.len() == other.peaks.len(),
                forall|j: int| 0 <= j < i ==> self.peaks_view()[j] == other.peaks_view()[j],
            decreases self.peaks.len() - i,
        {
            if !(self.peaks[i] == other.peaks[i]) {
                proof {
                    assert(self.peaks_view()[i as int] != other.peaks_view()[i as int]);
                }
                return false;
            }
            i += 1;
        }
        proof {
            assert(self.peaks_view() =~= other.peaks_view());
        }
        true
    }
}

} // verus!
