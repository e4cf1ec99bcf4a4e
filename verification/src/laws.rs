//! The guarantees the migration gives as a whole, proved over the spec-level
//! model that `run`'s and `check`'s contracts are stated in.

use vstd::prelude::*;

use crate::add_history_nodes::{
    epoch_entries, epoch_leaves, processed_through, run_nodes_through, spec_epoch_peaks_ok,
    spec_run_result,
};
use crate::db::{spec_lookup, BlockRecord};
use crate::mmr::{build_emitted, build_peaks, lemma_build_indexed};
use crate::node::{HistoryNodeIndex, LeafData};
use crate::schedule::{upgrade_at, Network, NetworkUpgrade, MAX_HEIGHT};

verus! {

/// Position of an upgrade in the schedule.
pub open spec fn upgrade_pos(upgrade: NetworkUpgrade) -> int {
    match upgrade {
        NetworkUpgrade::Heartwood => 0,
        NetworkUpgrade::Canopy => 1,
        NetworkUpgrade::Nu5 => 2,
        NetworkUpgrade::Nu6 => 3,
    }
}

pub proof fn lemma_upgrade_pos(i: int)
    requires
        0 <= i < 4,
    ensures
        upgrade_pos(upgrade_at(i)) == i,
{
}

/// Looking a key up in one epoch's entry segment (restricted to its first
/// `n` entries): exactly the in-range indices of that epoch are present, each
/// carrying the emitted node of its own position.
proof fn lemma_lookup_entries_prefix(
    network: Network,
    first: u32,
    blocks: Seq<BlockRecord>,
    tip: u32,
    i: int,
    n: int,
    key: HistoryNodeIndex,
)
    requires
        0 <= i < 4,
        tip <= MAX_HEIGHT,
        0 <= n <= epoch_entries(network, first, blocks, tip, i).len(),
    ensures
        ({
            let emitted = build_emitted(epoch_leaves(network, first, blocks, tip, i));
            spec_lookup(epoch_entries(network, first, blocks, tip, i).take(n), key) == if key.upgrade
                == upgrade_at(i) && (key.index as int) < n {
                Some(emitted[key.index as int])
            } else {
                None::<Seq<LeafData>>
            }
        }),
    decreases n,
{
    let leaves = epoch_leaves(network, first, blocks, tip, i);
    let emitted = build_emitted(leaves);
    let ent = epoch_entries(network, first, blocks, tip, i);
    lemma_build_indexed(leaves);
    assert(emitted.len() <= 2 * leaves.len());
    assert(leaves.len() <= MAX_HEIGHT as int + 1);
    if n == 0 {
        assert(ent.take(0) =~~= Seq::<(HistoryNodeIndex, Seq<LeafData>)>::empty());
    } else {
        assert(ent.take(n).last() == ent[n - 1]);
        assert(ent[n - 1] == (
            HistoryNodeIndex { upgrade: upgrade_at(i), index: (n - 1) as u32 },
            emitted[n - 1],
        ));
        assert(ent.take(n).drop_last() =~~= ent.take(n - 1));
        lemma_lookup_entries_prefix(network, first, blocks, tip, i, n - 1, key);
        if key.upgrade == upgrade_at(i) && key.index == (n - 1) as u32 {
            assert(key.index as int == n - 1);
        }
    }
}

/// Looking a key up in the concatenation of two stores: the later store
/// wins when it holds the key.
proof fn lemma_lookup_concat(
    s1: Seq<(HistoryNodeIndex, Seq<LeafData>)>,
    s2: Seq<(HistoryNodeIndex, Seq<LeafData>)>,
    key: HistoryNodeIndex,
)
    ensures
        spec_lookup(s1 + s2, key) == if spec_lookup(s2, key) is Some {
            spec_lookup(s2, key)
        } else {
            spec_lookup(s1, key)
        },
    decreases s2.len(),
{
    if s2.len() == 0 {
        assert(s1 + s2 =~~= s1);
    } else {
        assert((s1 + s2).last() == s2.last());
        assert((s1 + s2).drop_last() =~~= s1 + s2.drop_last());
        lemma_lookup_concat(s1, s2.drop_last(), key);
    }
}

/// Looking a key up in the store after `k` committed epochs: present exactly
/// when the key's epoch is among the first `k` and was processed and the
/// index is in range, and then it holds the emitted node of that position.
pub proof fn lemma_lookup_run_nodes(
    network: Network,
    first: u32,
    blocks: Seq<BlockRecord>,
    tip: u32,
    k: nat,
    key: HistoryNodeIndex,
)
    requires
        k <= 4,
        tip <= MAX_HEIGHT,
    ensures
        ({
            let i = upgrade_pos(key.upgrade);
            let emitted = build_emitted(epoch_leaves(network, first, blocks, tip, i));
            spec_lookup(run_nodes_through(network, first, blocks, tip, k), key) == if i < k
                && processed_through(network, tip, i) && (key.index as int) < emitted.len() {
                Some(emitted[key.index as int])
            } else {
                None::<Seq<LeafData>>
            }
        }),
    decreases k,
{
    let i = upgrade_pos(key.upgrade);
    if k == 0 {
    } else {
        lemma_lookup_run_nodes(network, first, blocks, tip, (k - 1) as nat, key);
        if processed_through(network, tip, k - 1) {
            let prior = run_nodes_through(network, first, blocks, tip, (k - 1) as nat);
            let ent = epoch_entries(network, first, blocks, tip, k - 1);
            lemma_lookup_concat(prior, ent, key);
            assert(ent.take(ent.len() as int) =~~= ent);
            lemma_lookup_entries_prefix(network, first, blocks, tip, k - 1, ent.len() as int, key);
            if i == k - 1 {
                assert(upgrade_at(k - 1) == key.upgrade);
            } else {
                assert(key.upgrade != upgrade_at(k - 1));
            }
        }
    }
}

/// Idempotence: the node set a successful pass persists is a function of the
/// chain data, the network and the tip alone — never of previously persisted
/// nodes. Since `run` leaves the chain data unchanged, a second pass over the
/// unchanged database persists exactly the same records.
pub proof fn lemma_run_idempotent(db_before: crate::db::FinalizedDb, db_after: crate::db::FinalizedDb, tip: u32)
    requires
        db_after.network == db_before.network,
        db_after.first_height == db_before.first_height,
        db_after.blocks@ == db_before.blocks@,
        db_after.has_history_tree == db_before.has_history_tree,
    ensures
        spec_run_result(
            db_after.network,
            db_after.first_height,
            db_after.blocks@,
            db_after.has_history_tree,
            tip,
        ) == spec_run_result(
            db_before.network,
            db_before.first_height,
            db_before.blocks@,
            db_before.has_history_tree,
            tip,
        ),
{
}

/// Completeness: after a successful pass, the indices persisted for an epoch
/// activated at or below the tip are exactly `0..N`, with no gaps, where `N`
/// is the number of nodes that epoch's construction emits; index `j` holds
/// the `j`-th emitted node.
pub proof fn lemma_run_completeness(
    network: Network,
    first: u32,
    blocks: Seq<BlockRecord>,
    tip: u32,
    i: int,
    key: HistoryNodeIndex,
)
    requires
        0 <= i < 4,
        processed_through(network, tip, i),
        tip <= MAX_HEIGHT,
        key.upgrade == upgrade_at(i),
    ensures
        ({
            let emitted = build_emitted(epoch_leaves(network, first, blocks, tip, i));
            spec_lookup(spec_run_result(network, first, blocks, true, tip), key) == if (
            key.index as int) < emitted.len() {
                Some(emitted[key.index as int])
            } else {
                None::<Seq<LeafData>>
            }
        }),
{
    lemma_lookup_run_nodes(network, first, blocks, tip, 4, key);
    lemma_upgrade_pos(i);
}

/// Round-trip correctness: on the store a successful pass leaves behind,
/// every epoch activated at or below the tip passes the checker — each peak
/// of the independently rebuilt accumulator is found under its own index
/// with the emitted value, so the reconstructed root matches and `check`
/// reports success.
pub proof fn lemma_check_after_run(
    network: Network,
    first: u32,
    blocks: Seq<BlockRecord>,
    tip: u32,
    i: int,
)
    requires
        0 <= i < 4,
        processed_through(network, tip, i),
        tip <= MAX_HEIGHT,
    ensures
        spec_epoch_peaks_ok(
            network,
            first,
            blocks,
            spec_run_result(network, first, blocks, true, tip),
            tip,
            i,
        ),
{
    let leaves = epoch_leaves(network, first, blocks, tip, i);
    let emitted = build_emitted(leaves);
    let pk = build_peaks(leaves).0;
    lemma_build_indexed(leaves);
    assert(emitted.len() <= 2 * leaves.len());
    assert(leaves.len() <= MAX_HEIGHT as int + 1);
    assert forall|j: int| 0 <= j < pk.len() implies spec_lookup(
        spec_run_result(network, first, blocks, true, tip),
        HistoryNodeIndex { upgrade: upgrade_at(i), index: (#[trigger] pk[j]).index as u32 },
    ) == Some(pk[j].val) by {
        let key = HistoryNodeIndex { upgrade: upgrade_at(i), index: pk[j].index as u32 };
        assert(pk[j].index < emitted.len());
        assert((pk[j].index as u32) as int == pk[j].index);
        lemma_run_completeness(network, first, blocks, tip, i, key);
        assert(emitted[pk[j].index as int] == pk[j].val);
    }
}

/// On the store a successful pass leaves behind, a key whose index is one of
/// a processed epoch's peak indices is always present — so the checker's
/// missing-node outcome, whose contract ties the absent key to the peak index
/// set, cannot occur there, and with `lemma_check_after_run` the checker owes
/// success on that store.
pub proof fn lemma_no_missing_peak_after_run(
    network: Network,
    first: u32,
    blocks: Seq<BlockRecord>,
    tip: u32,
    i: int,
    key: HistoryNodeIndex,
)
    requires
        0 <= i < 4,
        processed_through(network, tip, i),
        tip <= MAX_HEIGHT,
        key.upgrade == upgrade_at(i),
        exists|j: int|
            0 <= j < build_peaks(epoch_leaves(network, first, blocks, tip, i)).0.len()
                && key.index as nat == (#[trigger] build_peaks(
                epoch_leaves(network, first, blocks, tip, i),
            ).0[j]).index,
    ensures
        spec_lookup(spec_run_result(network, first, blocks, true, tip), key) is Some,
{
    let pk = build_peaks(epoch_leaves(network, first, blocks, tip, i)).0;
    let j = choose|j: int|
        0 <= j < pk.len() && key.index as nat == (#[trigger] pk[j]).index;
    lemma_check_after_run(network, first, blocks, tip, i);
    assert(key.index == pk[j].index as u32);
    assert(spec_lookup(
        spec_run_result(network, first, blocks, true, tip),
        HistoryNodeIndex { upgrade: upgrade_at(i), index: pk[j].index as u32 },
    ) == Some(pk[j].val));
}

/// Cancellation safety: if the pass stops after `k` epochs have committed,
/// no key of a later epoch is in the store at all, and every key of an
/// earlier epoch holds exactly what the completed pass would hold there.
pub proof fn lemma_cancellation_safety(
    network: Network,
    first: u32,
    blocks: Seq<BlockRecord>,
    tip: u32,
    k: nat,
    key: HistoryNodeIndex,
)
    requires
        k <= 4,
        tip <= MAX_HEIGHT,
    ensures
        upgrade_pos(key.upgrade) >= k ==> spec_lookup(
            run_nodes_through(network, first, blocks, tip, k),
            key,
        ) is None,
        upgrade_pos(key.upgrade) < k ==> spec_lookup(
            run_nodes_through(network, first, blocks, tip, k),
            key,
        ) == spec_lookup(run_nodes_through(network, first, blocks, tip, 4), key),
{
    lemma_lookup_run_nodes(network, first, blocks, tip, k, key);
    lemma_lookup_run_nodes(network, first, blocks, tip, 4, key);
}

} // verus!
