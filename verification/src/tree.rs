//! The executable history accumulator.
//!
//! A `NonEmpty` accumulator holds the peaks of the range built from every
//! block absorbed so far; it is verified against the model in [`crate::mmr`].

use vstd::prelude::*;

use crate::mmr::{
    absorb_step, count_sum, leaf_node, merge_step, SpecPeak,
};
use crate::node::{HistoryNode, LeafData, TreeRoot};
use crate::schedule::{Network, MAX_HEIGHT};

verus! {

/// One peak held by the accumulator.
pub struct PeakNode {
    pub index: u32,
    pub count: u64,
    pub node: HistoryNode,
}

impl PeakNode {
    pub open spec fn spec(&self) -> SpecPeak {
        SpecPeak { index: self.index as nat, count: self.count as nat, val: self.node@ }
    }
}

/// A non-empty history accumulator: the network it was built for, the number
/// of absorbed blocks, the height of the last absorbed block, the number of
/// nodes emitted so far, and the current peak set.
pub struct HistoryAccumulator {
    pub network: Network,
    pub size: u64,
    pub current_height: u32,
    pub node_count: u32,
    pub peaks: Vec<PeakNode>,
}

impl HistoryAccumulator {
    pub open spec fn peaks_view(&self) -> Seq<SpecPeak> {
        self.peaks@.map(|i: int, p: PeakNode| p.spec())
    }

    /// The peak node values, leftmost peak first.
    pub open spec fn peak_vals(&self) -> Seq<Seq<LeafData>> {
        self.peaks@.map(|i: int, p: PeakNode| p.node@)
    }

    /// Well-formedness of an incrementally built accumulator.
    pub open spec fn wf(&self) -> bool {
        &&& self.peaks@.len() >= 1
        &&& self.size >= 1
        &&& self.size as int <= self.current_height as int + 1
        &&& self.current_height <= MAX_HEIGHT
        &&& self.node_count as int + self.peaks@.len() as int == 2 * (self.size as int)
        &&& count_sum(self.peaks_view()) == self.size as nat
    }

    /// A fresh accumulator over the single block `leaf`.
    pub fn from_block(network: Network, leaf: LeafData) -> (t: HistoryAccumulator)
        requires
            leaf.height <= MAX_HEIGHT,
        ensures
            t.wf(),
            t.network == network,
            t.size == 1,
            t.current_height == leaf.height,
            t.node_count == 1,
            t.peaks_view() == seq![SpecPeak { index: 0, count: 1, val: leaf_node(leaf) }],
    {
        let mut peaks: Vec<PeakNode> = Vec::new();
        peaks.push(PeakNode { index: 0, count: 1, node: HistoryNode { leaves: vec![leaf] } });
        let t = HistoryAccumulator {
            network,
            size: 1,
            current_height: leaf.height,
            node_count: 1,
            peaks,
        };
        proof {
            assert(t.peaks_view() =~~= seq![SpecPeak { index: 0, count: 1, val: leaf_node(leaf) }]);
            assert(count_sum(t.peaks_view()) == count_sum(t.peaks_view().drop_last())
                + t.peaks_view().last().count);
            assert(t.peaks_view().drop_last() =~~= Seq::<SpecPeak>::empty());
        }
        t
    }

    /// Absorb the next block. Only the block at the next height is accepted.
    /// Returns every node the absorption emitted, in emission order.
    pub fn push(&mut self, leaf: LeafData) -> (emitted: Vec<HistoryNode>)
        requires
            old(self).wf(),
            old(self).current_height < MAX_HEIGHT,
            leaf.height == old(self).current_height + 1,
        ensures
            final(self).wf(),
            final(self).network == old(self).network,
            final(self).size == old(self).size + 1,
            final(self).current_height == leaf.height,
            final(self).peaks_view() == absorb_step(
                old(self).peaks_view(),
                old(self).node_count as nat,
                leaf,
            ).0,
            final(self).node_count as nat == absorb_step(
                old(self).peaks_view(),
                old(self).node_count as nat,
                leaf,
            ).1,
            emitted@.map(|i: int, n: HistoryNode| n@) == absorb_step(
                old(self).peaks_view(),
                old(self).node_count as nat,
                leaf,
            ).2,
    {
        let ghost lp = SpecPeak {
            index: old(self).node_count as nat,
            count: 1,
            val: leaf_node(leaf),
        };
        let ghost mid_peaks = old(self).peaks_view().push(lp);
        let ghost mid_nc = (old(self).node_count + 1) as nat;
        let ghost delta = absorb_step(old(self).peaks_view(), old(self).node_count as nat, leaf).2;

        let mut emitted: Vec<HistoryNode> = Vec::new();
        emitted.push(HistoryNode { leaves: vec![leaf] });
        self.peaks.push(PeakNode {
            index: self.node_count,
            count: 1,
            node: HistoryNode { leaves: vec![leaf] },
        });
        self.node_count = self.node_count + 1;
        self.size = self.size + 1;
        self.current_height = leaf.height;
        proof {
            assert(self.peaks_view() =~~= mid_peaks);
            assert(count_sum(mid_peaks) == count_sum(mid_peaks.drop_last())
                + mid_peaks.last().count);
            assert(mid_peaks.drop_last() =~~= old(self).peaks_view());
            assert(emitted@.map(|i: int, n: HistoryNode| n@) =~~= seq![leaf_node(leaf)]);
            assert(delta == seq![leaf_node(leaf)] + merge_step(mid_peaks, mid_nc).2);
        }

        while self.peaks.len() >= 2 && self.peaks[self.peaks.len() - 2].count
            == self.peaks[self.peaks.len() - 1].count
            invariant
                self.network == old(self).network,
                self.size == old(self).size + 1,
                self.current_height == leaf.height,
                leaf.height == old(self).current_height + 1,
                old(self).current_height < MAX_HEIGHT,
                self.size as int <= self.current_height as int + 1,
                self.peaks@.len() >= 1,
                count_sum(self.peaks_view()) == self.size as nat,
                self.node_count as int + self.peaks@.len() as int == 2 * (self.size as int),
                merge_step(self.peaks_view(), self.node_count as nat).0 == merge_step(
                    mid_peaks,
                    mid_nc,
                ).0,
                merge_step(self.peaks_view(), self.node_count as nat).1 == merge_step(
                    mid_peaks,
                    mid_nc,
                ).1,
                emitted@.map(|i: int, n: HistoryNode| n@) + merge_step(
                    self.peaks_view(),
                    self.node_count as nat,
                ).2 == delta,
            decreases self.peaks.len(),
        {
            let ghost cur_pv = self.peaks_view();
            let ghost cur_nc = self.node_count as nat;
            let b = self.peaks.pop().unwrap();
            let a = self.peaks.pop().unwrap();
            proof {
                assert(cur_pv[cur_pv.len() - 2] == a.spec());
                assert(cur_pv[cur_pv.len() - 1] == b.spec());
                crate::mmr::lemma_count_sum_drop_two(cur_pv);
            }
            let mut merged = a.node.leaves;
            let mut b_leaves = b.node.leaves;
            merged.append(&mut b_leaves);
            let parent_count = a.count + b.count;
            let parent_node = HistoryNode { leaves: merged };
            let ghost parent_spec = SpecPeak {
                index: cur_nc,
                count: (a.count + b.count) as nat,
                val: a.spec().val + b.spec().val,
            };
            emitted.push(parent_node.duplicate());
            self.peaks.push(PeakNode { index: self.node_count, count: parent_count, node: parent_node });
            self.node_count = self.node_count + 1;
            proof {
                let next_pv = self.peaks_view();
                assert(next_pv =~~= cur_pv.take(cur_pv.len() - 2).push(parent_spec));
                assert(count_sum(next_pv) == count_sum(next_pv.drop_last()) + next_pv.last().count);
                assert(next_pv.drop_last() =~~= cur_pv.take(cur_pv.len() - 2));
                // one unfolding of the merge pass
                assert(merge_step(cur_pv, cur_nc).0 == merge_step(next_pv, self.node_count as nat).0);
                assert(merge_step(cur_pv, cur_nc).1 == merge_step(next_pv, self.node_count as nat).1);
                assert(merge_step(cur_pv, cur_nc).2 == seq![parent_spec.val] + merge_step(
                    next_pv,
                    self.node_count as nat,
                ).2);
                assert(emitted@.map(|i: int, n: HistoryNode| n@) + merge_step(
                    next_pv,
                    self.node_count as nat,
                ).2 =~~= delta);
            }
        }
        proof {
            let cur_pv = self.peaks_view();
            let cur_nc = self.node_count as nat;
            assert(merge_step(cur_pv, cur_nc) == (cur_pv, cur_nc, Seq::<Seq<LeafData>>::empty()));
            assert(emitted@.map(|i: int, n: HistoryNode| n@) + Seq::<Seq<LeafData>>::empty()
                =~~= emitted@.map(|i: int, n: HistoryNode| n@));
        }
        emitted
    }

    /// Owned copies of the peak node values, leftmost peak first.
    pub fn peak_nodes(&self) -> (v: Vec<HistoryNode>)
        ensures
            v@.map(|i: int, n: HistoryNode| n@) == self.peak_vals(),
    {
        let mut v: Vec<HistoryNode> = Vec::new();
        let mut i: usize = 0;
        while i < self.peaks.len()
            invariant
                i <= self.peaks.len(),
                v@.len() == i,
                forall|j: int| 0 <= j < i ==> v@[j]@ == self.peaks@[j].node@,
            decreases self.peaks.len() - i,
        {
            v.push(self.peaks[i].node.duplicate());
            i += 1;
        }
        proof {
            assert(v@.map(|k: int, n: HistoryNode| n@) =~~= self.peak_vals());
        }
        v
    }

    /// The per-epoch storage indices of the current peaks, leftmost first.
    pub fn peak_indices(&self) -> (v: Vec<u32>)
        ensures
            v@.len() == self.peaks_view().len(),
            forall|j: int| 0 <= j < v@.len() ==> v@[j] as nat == self.peaks_view()[j].index,
    {
        let mut v: Vec<u32> = Vec::new();
        let mut i: usize = 0;
        while i < self.peaks.len()
            invariant
                i <= self.peaks.len(),
                v@.len() == i,
                forall|j: int| 0 <= j < i ==> v@[j] as nat == self.peaks_view()[j].index,
            decreases self.peaks.len() - i,
        {
            v.push(self.peaks[i].index);
            i += 1;
        }
        v
    }

    /// The data the root hash is derived from.
    pub fn root(&self) -> (r: TreeRoot)
        ensures
            r.size == self.size,
            r.height == self.current_height,
            r.peaks_view() == self.peak_vals(),
    {
        TreeRoot { size: self.size, height: self.current_height, peaks: self.peak_nodes() }
    }

    /// Rebuild an accumulator purely from a persisted peak set, together with
    /// the size and height the peaks were stored at. Nothing is assumed of
    /// the peak values: a wrong set yields a wrong root, found by comparing
    /// roots.
    pub fn from_cache(network: Network, size: u64, peaks: Vec<HistoryNode>, height: u32) -> (t:
        HistoryAccumulator)
        ensures
            t.network == network,
            t.size == size,
            t.current_height == height,
            t.peak_vals() == peaks@.map(|i: int, n: HistoryNode| n@),
    {
        let mut rebuilt: Vec<PeakNode> = Vec::new();
        let mut i: usize = 0;
        while i < peaks.len()
            invariant
                i <= peaks.len(),
                rebuilt@.len() == i,
                forall|j: int| 0 <= j < i ==> rebuilt@[j].node@ == peaks@[j]@,
            decreases peaks.len() - i,
        {
            let count = peaks[i].leaves.len() as u64;
            rebuilt.push(PeakNode { index: 0, count, node: peaks[i].duplicate() });
            i += 1;
        }
        let t = HistoryAccumulator { network, size, current_height: height, node_count: 0, peaks: rebuilt };
        proof {
            assert(t.peak_vals() =~~= peaks@.map(|i: int, n: HistoryNode| n@));
        }
        t
    }
}

} // verus!
