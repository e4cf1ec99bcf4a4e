//! Mathematical model of the per-epoch Merkle Mountain Range.
//!
//! The accumulator is described by the sequence of leaves absorbed so far.
//! `build_peaks` gives the peak set and the emission count after absorbing a
//! leaf sequence; `build_emitted` gives every node ever emitted, in emission
//! order. A node is modelled by the leaf span it covers.

use vstd::prelude::*;

use crate::node::LeafData;

verus! {

/// One peak of the range: its position in the emission order, the number of
/// leaves it covers, and the node value itself.
#[verifier::ext_equal]
pub ghost struct SpecPeak {
    pub index: nat,
    pub count: nat,
    pub val: Seq<LeafData>,
}

/// The node a single leaf turns into.
pub open spec fn leaf_node(leaf: LeafData) -> Seq<LeafData> {
    seq![leaf]
}

/// Merge the two rightmost peaks while they cover equally many leaves; each
/// merge emits the parent node. Returns the new peak stack, the new emission
/// count, and the parents emitted, in order.
pub open spec fn merge_step(peaks: Seq<SpecPeak>, node_count: nat) -> (
    Seq<SpecPeak>,
    nat,
    Seq<Seq<LeafData>>,
)
    decreases peaks.len(),
{
    if peaks.len() >= 2 && peaks[peaks.len() - 2].count == peaks[peaks.len() - 1].count {
        let a = peaks[peaks.len() - 2];
        let b = peaks[peaks.len() - 1];
        let parent = SpecPeak {
            index: node_count,
            count: (a.count + b.count) as nat,
            val: a.val + b.val,
        };
        let rec = merge_step(peaks.take(peaks.len() - 2).push(parent), (node_count + 1) as nat);
        (rec.0, rec.1, seq![parent.val] + rec.2)
    } else {
        (peaks, node_count, Seq::empty())
    }
}

/// Absorb one leaf: emit its leaf node, push it as a one-leaf peak, then
/// merge. Returns the new peak stack, the new emission count, and everything
/// emitted for this leaf, in order.
pub open spec fn absorb_step(peaks: Seq<SpecPeak>, node_count: nat, leaf: LeafData) -> (
    Seq<SpecPeak>,
    nat,
    Seq<Seq<LeafData>>,
)
{
    let lp = SpecPeak { index: node_count, count: 1, val: leaf_node(leaf) };
    let rec = merge_step(peaks.push(lp), (node_count + 1) as nat);
    (rec.0, rec.1, seq![leaf_node(leaf)] + rec.2)
}

/// Peak stack and emission count after absorbing `leaves` in order into an
/// initially empty range.
pub open spec fn build_peaks(leaves: Seq<LeafData>) -> (Seq<SpecPeak>, nat)
    decreases leaves.len(),
{
    if leaves.len() == 0 {
        (Seq::empty(), 0)
    } else {
        let prev = build_peaks(leaves.drop_last());
        let step = absorb_step(prev.0, prev.1, leaves.last());
        (step.0, step.1)
    }
}

/// Every node emitted while absorbing `leaves` in order, in emission order.
pub open spec fn build_emitted(leaves: Seq<LeafData>) -> Seq<Seq<LeafData>>
    decreases leaves.len(),
{
    if leaves.len() == 0 {
        Seq::empty()
    } else {
        let prev = build_peaks(leaves.drop_last());
        build_emitted(leaves.drop_last()) + absorb_step(prev.0, prev.1, leaves.last()).2
    }
}

/// Total number of leaves the peaks cover.
pub open spec fn count_sum(peaks: Seq<SpecPeak>) -> nat
    decreases peaks.len(),
{
    if peaks.len() == 0 {
        0
    } else {
        count_sum(peaks.drop_last()) + peaks.last().count
    }
}

/// Every peak stands at its own position of the emission sequence.
pub open spec fn peaks_indexed(peaks: Seq<SpecPeak>, emitted: Seq<Seq<LeafData>>) -> bool {
    forall|j: int|
        0 <= j < peaks.len() ==> (#[trigger] peaks[j]).index < emitted.len()
            && emitted[peaks[j].index as int] == peaks[j].val
}

pub proof fn lemma_count_sum_drop_two(peaks: Seq<SpecPeak>)
    requires
        peaks.len() >= 2,
    ensures
        count_sum(peaks) == count_sum(peaks.take(peaks.len() - 2))
            + peaks[peaks.len() - 2].count + peaks[peaks.len() - 1].count,
{
    assert(count_sum(peaks) == count_sum(peaks.drop_last()) + peaks.last().count);
    assert(count_sum(peaks.drop_last()) == count_sum(peaks.drop_last().drop_last())
        + peaks.drop_last().last().count);
    assert(peaks.drop_last().drop_last() =~~= peaks.take(peaks.len() - 2));
    assert(peaks.drop_last().last() == peaks[peaks.len() - 2]);
}

/// What one merge pass preserves: peak indexing into the extended emission
/// sequence, the covered-leaf total, and the node-plus-peak count.
pub proof fn lemma_merge_step(peaks: Seq<SpecPeak>, node_count: nat, emitted: Seq<Seq<LeafData>>)
    requires
        peaks_indexed(peaks, emitted),
        node_count == emitted.len(),
    ensures
        ({
            let r = merge_step(peaks, node_count);
            &&& peaks_indexed(r.0, emitted + r.2)
            &&& r.1 == (emitted + r.2).len()
            &&& count_sum(r.0) == count_sum(peaks)
            &&& r.1 + r.0.len() == node_count + peaks.len()
            &&& (peaks.len() >= 1 ==> r.0.len() >= 1)
        }),
    decreases peaks.len(),
{
    if peaks.len() >= 2 && peaks[peaks.len() - 2].count == peaks[peaks.len() - 1].count {
        let a = peaks[peaks.len() - 2];
        let b = peaks[peaks.len() - 1];
        let parent = SpecPeak {
            index: node_count,
            count: (a.count + b.count) as nat,
            val: a.val + b.val,
        };
        let next = peaks.take(peaks.len() - 2).push(parent);
        let emitted2 = emitted.push(parent.val);
        assert(peaks_indexed(next, emitted2)) by {
            assert forall|j: int| 0 <= j < next.len() implies (#[trigger] next[j]).index
                < emitted2.len() && emitted2[next[j].index as int] == next[j].val by {
                if j < next.len() - 1 {
                    assert(next[j] == peaks[j]);
                }
            }
        }
        lemma_count_sum_drop_two(peaks);
        assert(count_sum(next) == count_sum(peaks.take(peaks.len() - 2)) + parent.count) by {
            assert(next.drop_last() =~~= peaks.take(peaks.len() - 2));
        }
        lemma_merge_step(next, (node_count + 1) as nat, emitted2);
        let rec = merge_step(next, (node_count + 1) as nat);
        assert(emitted + (seq![parent.val] + rec.2) =~~= emitted2 + rec.2);
    } else {
        assert(emitted + Seq::<Seq<LeafData>>::empty() =~~= emitted);
    }
}

/// The construction invariant: the emission count equals the emitted
/// sequence's length, the peaks cover all absorbed leaves, each peak stands
/// at its own position of the emission sequence, and emission count plus peak
/// count is exactly twice the leaf count.
pub proof fn lemma_build_indexed(leaves: Seq<LeafData>)
    ensures
        peaks_indexed(build_peaks(leaves).0, build_emitted(leaves)),
        build_peaks(leaves).1 == build_emitted(leaves).len(),
        count_sum(build_peaks(leaves).0) == leaves.len(),
        build_peaks(leaves).1 + build_peaks(leaves).0.len() == 2 * leaves.len(),
        leaves.len() > 0 ==> build_peaks(leaves).0.len() >= 1,
    decreases leaves.len(),
{
    if leaves.len() > 0 {
        let prior = leaves.drop_last();
        lemma_build_indexed(prior);
        let prev = build_peaks(prior);
        let leaf = leaves.last();
        let lp = SpecPeak { index: prev.1, count: 1, val: leaf_node(leaf) };
        let mid = prev.0.push(lp);
        let emitted_mid = build_emitted(prior).push(leaf_node(leaf));
        assert(peaks_indexed(mid, emitted_mid)) by {
            assert forall|j: int| 0 <= j < mid.len() implies (#[trigger] mid[j]).index
                < emitted_mid.len() && emitted_mid[mid[j].index as int] == mid[j].val by {
                if j < mid.len() - 1 {
                    assert(mid[j] == prev.0[j]);
                }
            }
        }
        assert(count_sum(mid) == count_sum(prev.0) + 1) by {
            assert(mid.drop_last() =~~= prev.0);
        }
        lemma_merge_step(mid, (prev.1 + 1) as nat, emitted_mid);
        let rec = merge_step(mid, (prev.1 + 1) as nat);
        assert(build_emitted(leaves) =~~= emitted_mid + rec.2) by {
            assert(build_emitted(leaves) == build_emitted(prior) + (seq![leaf_node(leaf)] + rec.2));
            assert(build_emitted(prior) + (seq![leaf_node(leaf)] + rec.2) =~~= emitted_mid + rec.2);
        }
    }
}

/// The range over a single leaf: one peak, one emitted node.
pub proof fn lemma_build_single(leaf: LeafData)
    ensures
        build_peaks(seq![leaf]).0 == seq![SpecPeak { index: 0, count: 1, val: leaf_node(leaf) }],
        build_peaks(seq![leaf]).1 == 1,
        build_emitted(seq![leaf]) == seq![leaf_node(leaf)],
{
    let s = seq![leaf];
    assert(s.drop_last() =~~= Seq::<LeafData>::empty());
    assert(s.last() == leaf);
    assert(build_peaks(Seq::<LeafData>::empty()) == (Seq::<SpecPeak>::empty(), 0nat));
    assert(build_emitted(Seq::<LeafData>::empty()) == Seq::<Seq<LeafData>>::empty());
    let lp = SpecPeak { index: 0, count: 1, val: leaf_node(leaf) };
    let stack = Seq::<SpecPeak>::empty().push(lp);
    assert(stack.len() == 1);
    assert(merge_step(stack, 1) == (stack, 1nat, Seq::<Seq<LeafData>>::empty()));
    assert(build_peaks(s).0 == absorb_step(Seq::<SpecPeak>::empty(), 0, leaf).0);
    assert(build_peaks(s).0 =~~= seq![lp]);
    assert(build_emitted(s) =~~= seq![leaf_node(leaf)]);
}

/// Stepping the fold forward by one leaf.
pub proof fn lemma_build_push(leaves: Seq<LeafData>, leaf: LeafData)
    ensures
        build_peaks(leaves.push(leaf)).0 == absorb_step(
            build_peaks(leaves).0,
            build_peaks(leaves).1,
            leaf,
        ).0,
        build_peaks(leaves.push(leaf)).1 == absorb_step(
            build_peaks(leaves).0,
            build_peaks(leaves).1,
            leaf,
        ).1,
        build_emitted(leaves.push(leaf)) == build_emitted(leaves) + absorb_step(
            build_peaks(leaves).0,
            build_peaks(leaves).1,
            leaf,
        ).2,
{
    assert(leaves.push(leaf).drop_last() =~~= leaves);
    assert(leaves.push(leaf).last() == leaf);
    assert(leaves.push(leaf).len() == leaves.len() + 1);
}

} // verus!
