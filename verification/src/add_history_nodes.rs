//! Backfilling history nodes into the database, and checking the backfill.
//!
//! `run` clears every persisted history node, then, epoch by epoch, replays
//! the epoch's block range through a fresh accumulator and commits the
//! emitted nodes as one atomic batch under dense per-epoch indices. `check`
//! independently rebuilds each epoch's accumulator, reads the stored peak
//! nodes back, reconstructs a tree purely from them, and compares roots.

use vstd::prelude::*;

use crate::cancel::{cancel_requested, CancelFormatChange};
use crate::db::{
    apply_ops, leaf_at, range_leaves, range_present, record_at, spec_lookup, BlockRecord,
    DiskWriteBatch, FinalizedDb, SpecBatchOp,
};
use crate::mmr::{build_emitted, build_peaks, lemma_build_indexed, lemma_build_push, lemma_build_single};
use crate::node::{HistoryNode, HistoryNodeIndex, LeafData};
use crate::schedule::{
    activation_height, next_upgrade, spec_activation_height, spec_next_upgrade, upgrade_at,
    upgrades_with_history, Network, NetworkUpgrade, MAX_HEIGHT,
};
use crate::tree::HistoryAccumulator;

verus! {

/// Why a pass stopped without completing: the caller asked it to, or data
/// that must exist was not found, which means the database is corrupt.
#[derive(Clone, Copy, PartialEq, Eq, Structural, Debug)]
pub enum MigrationError {
    Cancelled,
    MissingBlockData(u32),
    MissingHistoryNode(HistoryNodeIndex),
}

/// The named soft failure of the checker: the epoch whose reconstructed root
/// disagrees with the independently derived one.
#[derive(Clone, Copy, PartialEq, Eq, Structural, Debug)]
pub struct HistoryTreeMismatch {
    pub upgrade: NetworkUpgrade,
}

/// Activation height of the schedule's `i`-th epoch on `network`.
pub open spec fn epoch_activation(network: Network, i: int) -> Option<u32> {
    spec_activation_height(upgrade_at(i), network)
}

/// Whether the `i`-th epoch is scheduled and activated at or below `tip`.
pub open spec fn epoch_active(network: Network, tip: u32, i: int) -> bool {
    match epoch_activation(network, i) {
        Some(a) => a <= tip,
        None => false,
    }
}

/// Whether the backfill reaches past the `i`-th epoch: it and all earlier
/// epochs are activated at or below `tip`.
pub open spec fn processed_through(network: Network, tip: u32, i: int) -> bool {
    forall|j: int| 0 <= j <= i ==> #[trigger] epoch_active(network, tip, j)
}

/// First block height of the `i`-th epoch (0 when unscheduled).
pub open spec fn epoch_start(network: Network, i: int) -> u32 {
    match epoch_activation(network, i) {
        Some(a) => a,
        None => 0,
    }
}

/// Last block height the `i`-th epoch's backfill covers: one below the next
/// epoch's activation height, clamped to `tip`.
pub open spec fn epoch_last(network: Network, tip: u32, i: int) -> u32 {
    if 0 <= i < 3 {
        match epoch_activation(network, i + 1) {
            Some(a) => if a > 0 && a - 1 <= tip {
                (a - 1) as u32
            } else {
                tip
            },
            None => tip,
        }
    } else {
        tip
    }
}

/// Number of blocks in the inclusive range `start..=last`.
pub open spec fn span_len(start: u32, last: u32) -> nat {
    if start <= last {
        (last - start + 1) as nat
    } else {
        0
    }
}

/// The leaves the `i`-th epoch's accumulator absorbs.
pub open spec fn epoch_leaves(
    network: Network,
    first: u32,
    blocks: Seq<BlockRecord>,
    tip: u32,
    i: int,
) -> Seq<LeafData> {
    range_leaves(
        first,
        blocks,
        epoch_start(network, i),
        span_len(epoch_start(network, i), epoch_last(network, tip, i)),
    )
}

/// The records a successful pass persists for the `i`-th epoch: its emitted
/// nodes, keyed by the epoch and a dense zero-based index.
pub open spec fn epoch_entries(
    network: Network,
    first: u32,
    blocks: Seq<BlockRecord>,
    tip: u32,
    i: int,
) -> Seq<(HistoryNodeIndex, Seq<LeafData>)> {
    let emitted = build_emitted(epoch_leaves(network, first, blocks, tip, i));
    Seq::new(
        emitted.len(),
        |j: int| (HistoryNodeIndex { upgrade: upgrade_at(i), index: j as u32 }, emitted[j]),
    )
}

/// The node store after the pass has committed the first `k` epochs (epochs
/// the schedule stops at contribute nothing).
pub open spec fn run_nodes_through(
    network: Network,
    first: u32,
    blocks: Seq<BlockRecord>,
    tip: u32,
    k: nat,
) -> Seq<(HistoryNodeIndex, Seq<LeafData>)>
    decreases k,
{
    if k == 0 {
        Seq::empty()
    } else if processed_through(network, tip, k - 1) {
        run_nodes_through(network, first, blocks, tip, (k - 1) as nat) + epoch_entries(
            network,
            first,
            blocks,
            tip,
            k - 1,
        )
    } else {
        run_nodes_through(network, first, blocks, tip, (k - 1) as nat)
    }
}

/// The node store a successful `run` leaves behind.
pub open spec fn spec_run_result(
    network: Network,
    first: u32,
    blocks: Seq<BlockRecord>,
    has_history_tree: bool,
    tip: u32,
) -> Seq<(HistoryNodeIndex, Seq<LeafData>)> {
    if has_history_tree {
        run_nodes_through(network, first, blocks, tip, 4)
    } else {
        Seq::empty()
    }
}

/// The `i`-th epoch passes the checker against `nodes`: every peak of its
/// independently rebuilt accumulator is stored under its own index, with the
/// value the construction emitted there.
pub open spec fn spec_epoch_peaks_ok(
    network: Network,
    first: u32,
    blocks: Seq<BlockRecord>,
    nodes: Seq<(HistoryNodeIndex, Seq<LeafData>)>,
    tip: u32,
    i: int,
) -> bool {
    let pk = build_peaks(epoch_leaves(network, first, blocks, tip, i)).0;
    forall|j: int|
        0 <= j < pk.len() ==> spec_lookup(
            nodes,
            HistoryNodeIndex { upgrade: upgrade_at(i), index: (#[trigger] pk[j]).index as u32 },
        ) == Some(pk[j].val)
}

/// Every peak key of the `i`-th epoch's rebuilt accumulator is present in
/// `nodes`, whatever it holds there.
pub open spec fn epoch_peaks_present(
    network: Network,
    first: u32,
    blocks: Seq<BlockRecord>,
    nodes: Seq<(HistoryNodeIndex, Seq<LeafData>)>,
    tip: u32,
    i: int,
) -> bool {
    let pk = build_peaks(epoch_leaves(network, first, blocks, tip, i)).0;
    forall|j: int|
        0 <= j < pk.len() ==> spec_lookup(
            nodes,
            HistoryNodeIndex { upgrade: upgrade_at(i), index: (#[trigger] pk[j]).index as u32 },
        ) is Some
}

/// Epochs at or past an inactive one contribute nothing to the store.
pub proof fn lemma_run_nodes_stall(
    network: Network,
    first: u32,
    blocks: Seq<BlockRecord>,
    tip: u32,
    i: nat,
    k: nat,
)
    requires
        !epoch_active(network, tip, i as int),
        i <= k <= 4,
    ensures
        run_nodes_through(network, first, blocks, tip, k) == run_nodes_through(
            network,
            first,
            blocks,
            tip,
            i,
        ),
    decreases k,
{
    if k > i {
        assert(!processed_through(network, tip, k - 1)) by {
            assert(!epoch_active(network, tip, i as int));
        }
        lemma_run_nodes_stall(network, first, blocks, tip, i, (k - 1) as nat);
    }
}

/// A batch of pure writes appends exactly its key/value pairs.
pub proof fn lemma_apply_write_ops(
    nodes: Seq<(HistoryNodeIndex, Seq<LeafData>)>,
    ops: Seq<SpecBatchOp>,
)
    requires
        forall|j: int| 0 <= j < ops.len() ==> (#[trigger] ops[j]) is Write,
    ensures
        apply_ops(nodes, ops) == nodes + Seq::new(
            ops.len(),
            |j: int| (ops[j]->Write_0, ops[j]->Write_1),
        ),
    decreases ops.len(),
{
    let pairs = Seq::new(ops.len(), |j: int| (ops[j]->Write_0, ops[j]->Write_1));
    if ops.len() == 0 {
        assert(apply_ops(nodes, ops) =~~= nodes + pairs);
    } else {
        lemma_apply_write_ops(nodes, ops.drop_last());
        let prev_pairs = Seq::new(
            ops.drop_last().len(),
            |j: int| (ops.drop_last()[j]->Write_0, ops.drop_last()[j]->Write_1),
        );
        assert(apply_ops(nodes, ops) == apply_ops(nodes, ops.drop_last()).push(
            (ops.last()->Write_0, ops.last()->Write_1),
        ));
        assert((nodes + prev_pairs).push((ops.last()->Write_0, ops.last()->Write_1)) =~~= nodes
            + pairs);
    }
}

/// Stage `nodes` into `batch` under consecutive indices of `upgrade`,
/// starting at `start_index`.
fn stage_nodes(
    batch: &mut DiskWriteBatch,
    upgrade: NetworkUpgrade,
    start_index: u32,
    nodes: &Vec<HistoryNode>,
) -> (next_index: u32)
    requires
        start_index as int + nodes@.len() <= u32::MAX as int,
    ensures
        next_index as int == start_index as int + nodes@.len(),
        final(batch).ops_view() == old(batch).ops_view() + Seq::new(
            nodes@.len(),
            |j: int| SpecBatchOp::Write(
                HistoryNodeIndex { upgrade, index: (start_index + j) as u32 },
                nodes@[j]@,
            ),
        ),
{
    let mut index = start_index;
    let mut j: usize = 0;
    while j < nodes.len()
        invariant
            j <= nodes.len(),
            index as int == start_index as int + j,
            start_index as int + nodes@.len() <= u32::MAX as int,
            batch.ops_view() == old(batch).ops_view() + Seq::new(
                j as nat,
                |m: int| SpecBatchOp::Write(
                    HistoryNodeIndex { upgrade, index: (start_index + m) as u32 },
                    nodes@[m]@,
                ),
            ),
        decreases nodes.len() - j,
    {
        let ghost before = batch.ops_view();
        batch.write_history_node(HistoryNodeIndex { upgrade, index }, nodes[j].duplicate());
        proof {
            assert(batch.ops_view() =~~= old(batch).ops_view() + Seq::new(
                (j + 1) as nat,
                |m: int| SpecBatchOp::Write(
                    HistoryNodeIndex { upgrade, index: (start_index + m) as u32 },
                    nodes@[m]@,
                ),
            ));
        }
        index += 1;
        j += 1;
    }
    index
}

/// Replay one epoch's block range through a fresh accumulator, staging every
/// emitted node; the caller commits the returned batch.
fn backfill_epoch(
    db: &FinalizedDb,
    upgrade: NetworkUpgrade,
    start: u32,
    last: u32,
    cancel_receiver: &crossbeam_channel::Receiver<CancelFormatChange>,
) -> (r: Result<DiskWriteBatch, MigrationError>)
    requires
        db.wf(),
        last <= MAX_HEIGHT,
    ensures
        ({
            let emitted = build_emitted(
                range_leaves(db.first_height, db.blocks@, start, span_len(start, last)),
            );
            match r {
                Ok(batch) => batch.ops_view() == Seq::new(
                    emitted.len(),
                    |j: int| SpecBatchOp::Write(
                        HistoryNodeIndex { upgrade, index: j as u32 },
                        emitted[j],
                    ),
                ) && range_present(db.first_height, db.blocks@, start, span_len(start, last)),
                Err(MigrationError::Cancelled) => true,
                Err(MigrationError::MissingBlockData(h)) => start <= h <= last && record_at(
                    db.first_height,
                    db.blocks@,
                    h,
                ) is None,
                Err(MigrationError::MissingHistoryNode(_)) => false,
            }
        }),
{
    let ghost first = db.first_height;
    let ghost blocks = db.blocks@;
    let mut batch = DiskWriteBatch::new();
    let mut index: u32 = 0;
    let mut inner_tree: Option<HistoryAccumulator> = None;
    let mut h: u32 = start;
    proof {
        assert(range_leaves(first, blocks, start, 0) =~~= Seq::<LeafData>::empty());
        assert(build_emitted(Seq::<LeafData>::empty()) == Seq::<Seq<LeafData>>::empty());
        assert(build_peaks(Seq::<LeafData>::empty()) == (
            Seq::<crate::mmr::SpecPeak>::empty(),
            0nat,
        ));
        assert(batch.ops_view() =~~= Seq::new(
            0,
            |j: int| SpecBatchOp::Write(HistoryNodeIndex { upgrade, index: j as u32 },
                build_emitted(range_leaves(first, blocks, start, 0))[j]),
        ));
    }
    while h <= last
        invariant
            start <= h,
            start <= last ==> h as int <= last as int + 1,
            start > last ==> h == start,
            last <= MAX_HEIGHT,
            db.wf(),
            db.first_height == first,
            db.blocks@ == blocks,
            ({
                let prefix = range_leaves(first, blocks, start, (h - start) as nat);
                &&& index as nat == build_peaks(prefix).1
                &&& batch.ops_view() == Seq::new(
                    build_emitted(prefix).len(),
                    |j: int| SpecBatchOp::Write(
                        HistoryNodeIndex { upgrade, index: j as u32 },
                        build_emitted(prefix)[j],
                    ),
                )
                &&& range_present(first, blocks, start, (h - start) as nat)
                &&& match inner_tree {
                    None => h == start,
                    Some(t) => {
                        &&& h > start
                        &&& t.wf()
                        &&& t.size as int == h - start
                        &&& t.current_height as int == h as int - 1
                        &&& t.peaks_view() == build_peaks(prefix).0
                        &&& t.node_count as nat == build_peaks(prefix).1
                    },
                }
            }),
        decreases last as int + 1 - h as int,
    {
        let ghost prefix = range_leaves(first, blocks, start, (h - start) as nat);
        let block_digest = match db.block(h) {
            Some(b) => b,
            None => {
                return Err(MigrationError::MissingBlockData(h));
            },
        };
        let sapling_root = match db.sapling_root(h) {
            Some(s) => s,
            None => {
                return Err(MigrationError::MissingBlockData(h));
            },
        };
        let orchard_root = match db.orchard_root(h) {
            Some(o) => o,
            None => {
                return Err(MigrationError::MissingBlockData(h));
            },
        };
        let leaf = LeafData { height: h, block_digest, sapling_root, orchard_root };
        let ghost prefix_new = range_leaves(first, blocks, start, (h + 1 - start) as nat);
        proof {
            assert(leaf == leaf_at(first, blocks, h));
            assert(prefix_new =~~= prefix.push(leaf));
            lemma_build_push(prefix, leaf);
            lemma_build_indexed(prefix);
            lemma_build_indexed(prefix_new);
        }
        let nodes: Vec<HistoryNode> = match &mut inner_tree {
            Some(t) => t.push(leaf),
            None => {
                let t = HistoryAccumulator::from_block(db.network, leaf);
                let initial = t.peak_nodes();
                proof {
                    lemma_build_single(leaf);
                    assert(prefix =~~= Seq::<LeafData>::empty());
                    assert(prefix_new =~~= seq![leaf]);
                    assert(t.peak_vals() =~~= seq![crate::mmr::leaf_node(leaf)]);
                    assert(initial@.map(|k: int, n: HistoryNode| n@) =~~= build_emitted(prefix_new));
                }
                inner_tree = Some(t);
                initial
            },
        };
        proof {
            assert(build_emitted(prefix_new).len() == build_peaks(prefix_new).1);
            assert(nodes@.len() == build_emitted(prefix_new).len() - build_emitted(prefix).len());
            assert(build_peaks(prefix_new).1 <= 2 * prefix_new.len());
            assert(prefix_new.len() <= MAX_HEIGHT as int + 1);
        }
        index = stage_nodes(&mut batch, upgrade, index, &nodes);
        proof {
            assert(batch.ops_view() =~~= Seq::new(
                build_emitted(prefix_new).len(),
                |j: int| SpecBatchOp::Write(
                    HistoryNodeIndex { upgrade, index: j as u32 },
                    build_emitted(prefix_new)[j],
                ),
            ));
            assert(range_present(first, blocks, start, (h + 1 - start) as nat));
        }
        if cancel_requested(cancel_receiver) {
            return Err(MigrationError::Cancelled);
        }
        h += 1;
    }
    proof {
        if start <= last {
            assert((h - start) as nat == span_len(start, last));
        } else {
            assert((h - start) as nat == 0);
            assert(span_len(start, last) == 0);
        }
    }
    Ok(batch)
}

/// Returns `Ok` if the backfill completed, and an error naming the cause if
/// it was cancelled or the database is missing data it must hold.
///
/// On success the persisted node store is exactly the per-epoch emission
/// records of every epoch activated at or below the tip; on cancellation it
/// is the store after some prefix of the epochs, earlier epochs committed in
/// full and later ones not at all.
pub fn run(
    initial_tip_height: u32,
    zebra_db: &mut FinalizedDb,
    cancel_receiver: &crossbeam_channel::Receiver<CancelFormatChange>,
) -> (r: Result<(), MigrationError>)
    requires
        old(zebra_db).wf(),
        initial_tip_height <= MAX_HEIGHT,
    ensures
        final(zebra_db).wf(),
        final(zebra_db).network == old(zebra_db).network,
        final(zebra_db).first_height == old(zebra_db).first_height,
        final(zebra_db).blocks@ == old(zebra_db).blocks@,
        final(zebra_db).has_history_tree == old(zebra_db).has_history_tree,
        // A tip without a history tree is a no-op success: that path reads
        // nothing and polls nothing, so success is owed.
        !old(zebra_db).has_history_tree ==> r is Ok,
        ({
            let net = old(zebra_db).network;
            let first = old(zebra_db).first_height;
            let blocks = old(zebra_db).blocks@;
            let tip = initial_tip_height;
            match r {
                Ok(()) => final(zebra_db).nodes_view() == spec_run_result(
                    net,
                    first,
                    blocks,
                    old(zebra_db).has_history_tree,
                    tip,
                ) && (old(zebra_db).has_history_tree ==> forall|i: int|
                    0 <= i < 4 && processed_through(net, tip, i) ==> range_present(
                        first,
                        blocks,
                        epoch_start(net, i),
                        span_len(epoch_start(net, i), epoch_last(net, tip, i)),
                    )),
                Err(MigrationError::Cancelled) => exists|k: nat|
                    k <= 4 && final(zebra_db).nodes_view() == run_nodes_through(
                        net,
                        first,
                        blocks,
                        tip,
                        k,
                    ),
                Err(MigrationError::MissingBlockData(h)) => (exists|k: nat|
                    k <= 4 && final(zebra_db).nodes_view() == run_nodes_through(
                        net,
                        first,
                        blocks,
                        tip,
                        k,
                    )) && (exists|i: int|
                    0 <= i < 4 && processed_through(net, tip, i) && epoch_start(net, i) <= h
                        <= epoch_last(net, tip, i) && record_at(first, blocks, h) is None),
                Err(MigrationError::MissingHistoryNode(_)) => false,
            }
        }),
{
    let ghost net = zebra_db.network;
    let ghost first = zebra_db.first_height;
    let ghost blocks = zebra_db.blocks@;
    let ghost tip = initial_tip_height;

    // Clear current data if it exists.
    let mut batch_for_delete = DiskWriteBatch::new();
    batch_for_delete.clear_history_nodes();
    let ghost delete_ops = batch_for_delete.ops_view();
    zebra_db.write_batch(batch_for_delete);
    proof {
        assert(delete_ops == Seq::<SpecBatchOp>::empty().push(SpecBatchOp::Clear));
        assert(delete_ops.drop_last() =~~= Seq::<SpecBatchOp>::empty());
        assert(zebra_db.nodes_view() == Seq::<(HistoryNodeIndex, Seq<LeafData>)>::empty());
        assert(zebra_db.nodes_view() == run_nodes_through(net, first, blocks, tip, 0));
    }

    // If the tip carries no history tree yet, there is nothing to backfill.
    if !zebra_db.has_history_tree {
        return Ok(());
    }

    let network = zebra_db.network;
    let upgrades = upgrades_with_history(network);

    let mut i: usize = 0;
    while i < 4
        invariant
            i <= 4,
            net == old(zebra_db).network,
            first == old(zebra_db).first_height,
            blocks == old(zebra_db).blocks@,
            old(zebra_db).has_history_tree,
            upgrades@ == crate::schedule::spec_schedule(net),
            network == net,
            zebra_db.wf(),
            zebra_db.network == net,
            zebra_db.first_height == first,
            zebra_db.blocks@ == blocks,
            zebra_db.has_history_tree,
            tip == initial_tip_height,
            tip <= MAX_HEIGHT,
            zebra_db.nodes_view() == run_nodes_through(net, first, blocks, tip, i as nat),
            forall|j: int| 0 <= j < i ==> #[trigger] epoch_active(net, tip, j),
            forall|j: int|
                0 <= j < i ==> #[trigger] range_present(
                    first,
                    blocks,
                    epoch_start(net, j),
                    span_len(epoch_start(net, j), epoch_last(net, tip, j)),
                ),
        decreases 4 - i,
    {
        let entry = upgrades[i];
        let upgrade = entry.0;
        let activation_height_option = entry.1;
        proof {
            assert(entry == crate::schedule::spec_schedule(net)[i as int]);
            assert(upgrade == upgrade_at(i as int));
            assert(activation_height_option == epoch_activation(net, i as int));
        }

        if cancel_requested(cancel_receiver) {
            return Err(MigrationError::Cancelled);
        }

        // We reached a future upgrade, or the upgrade is not available.
        let activation_height = match activation_height_option {
            Some(a) => a,
            None => {
                proof {
                    lemma_run_nodes_stall(net, first, blocks, tip, i as nat, 4);
                    assert forall|i2: int|
                        0 <= i2 < 4 && processed_through(net, tip, i2) implies range_present(
                        first,
                        blocks,
                        epoch_start(net, i2),
                        span_len(epoch_start(net, i2), epoch_last(net, tip, i2)),
                    ) by {
                        if i2 >= i {
                            assert(epoch_active(net, tip, i as int));
                        }
                    }
                }
                return Ok(());
            },
        };

        // We reached the tip.
        if initial_tip_height < activation_height {
            proof {
                lemma_run_nodes_stall(net, first, blocks, tip, i as nat, 4);
                assert forall|i2: int|
                    0 <= i2 < 4 && processed_through(net, tip, i2) implies range_present(
                    first,
                    blocks,
                    epoch_start(net, i2),
                    span_len(epoch_start(net, i2), epoch_last(net, tip, i2)),
                ) by {
                    if i2 >= i {
                        assert(epoch_active(net, tip, i as int));
                    }
                }
            }
            return Ok(());
        }
        proof {
            assert(epoch_active(net, tip, i as int));
        }

        // Bound this epoch's backfill to exactly the blocks that belong to it.
        let next_act: Option<u32> = match next_upgrade(upgrade) {
            Some(u) => crate::schedule::activation_height(u, network),
            None => None,
        };
        let last_block_height: u32 = match next_act {
            Some(a) => {
                if a >= 1 {
                    let c = a - 1;
                    if c <= initial_tip_height {
                        c
                    } else {
                        initial_tip_height
                    }
                } else {
                    initial_tip_height
                }
            },
            None => initial_tip_height,
        };
        proof {
            if i < 3 {
                assert(spec_next_upgrade(upgrade_at(i as int)) == Some(upgrade_at(i as int + 1)));
            }
            assert(last_block_height == epoch_last(net, tip, i as int));
            assert(activation_height == epoch_start(net, i as int));
        }

        if cancel_requested(cancel_receiver) {
            return Err(MigrationError::Cancelled);
        }

        let batch = match backfill_epoch(
            zebra_db,
            upgrade,
            activation_height,
            last_block_height,
            cancel_receiver,
        ) {
            Ok(batch) => batch,
            Err(e) => {
                proof {
                    assert(processed_through(net, tip, i as int));
                }
                return Err(e);
            },
        };
        let ghost batch_ops = batch.ops_view();
        zebra_db.write_batch(batch);
        proof {
            assert forall|j: int| 0 <= j < batch_ops.len() implies (#[trigger] batch_ops[j])
                is Write by {}
            lemma_apply_write_ops(run_nodes_through(net, first, blocks, tip, i as nat), batch_ops);
            assert(processed_through(net, tip, i as int));
            assert(Seq::new(
                batch_ops.len(),
                |j: int| (batch_ops[j]->Write_0, batch_ops[j]->Write_1),
            ) =~~= epoch_entries(net, first, blocks, tip, i as int));
            assert(zebra_db.nodes_view() == run_nodes_through(net, first, blocks, tip, i as nat)
                + epoch_entries(net, first, blocks, tip, i as int));
            assert(zebra_db.nodes_view() == run_nodes_through(
                net,
                first,
                blocks,
                tip,
                (i + 1) as nat,
            ));
        }
        i += 1;
    }
    Ok(())
}

/// Independently rebuild one epoch's accumulator, read the stored peaks
/// back, reconstruct a tree from them alone, and compare root hashes.
fn verify_epoch(
    db: &FinalizedDb,
    upgrade: NetworkUpgrade,
    start: u32,
    last: u32,
    cancel_receiver: &crossbeam_channel::Receiver<CancelFormatChange>,
) -> (r: Result<Result<(), HistoryTreeMismatch>, MigrationError>)
    requires
        db.wf(),
        start <= last <= MAX_HEIGHT,
    ensures
        ({
            let leaves = range_leaves(db.first_height, db.blocks@, start, span_len(start, last));
            let pk = build_peaks(leaves).0;
            match r {
                Ok(Ok(())) => range_present(db.first_height, db.blocks@, start, span_len(start, last))
                    && (forall|j: int|
                    0 <= j < pk.len() ==> spec_lookup(
                        db.nodes_view(),
                        HistoryNodeIndex {
                            upgrade,
                            index: (#[trigger] pk[j]).index as u32,
                        },
                    ) == Some(pk[j].val)),
                Ok(Err(m)) => m.upgrade == upgrade && (forall|j: int|
                    0 <= j < pk.len() ==> spec_lookup(
                        db.nodes_view(),
                        HistoryNodeIndex {
                            upgrade,
                            index: (#[trigger] pk[j]).index as u32,
                        },
                    ) is Some) && !(forall|j: int|
                    0 <= j < pk.len() ==> spec_lookup(
                        db.nodes_view(),
                        HistoryNodeIndex {
                            upgrade,
                            index: (#[trigger] pk[j]).index as u32,
                        },
                    ) == Some(pk[j].val)),
                Err(MigrationError::Cancelled) => true,
                Err(MigrationError::MissingBlockData(h)) => start <= h <= last && record_at(
                    db.first_height,
                    db.blocks@,
                    h,
                ) is None,
                Err(MigrationError::MissingHistoryNode(key)) => key.upgrade == upgrade
                    && spec_lookup(db.nodes_view(), key) is None && (exists|j: int|
                    0 <= j < pk.len() && key.index as nat == (#[trigger] pk[j]).index),
            }
        }),
{
    let ghost first = db.first_height;
    let ghost blocks = db.blocks@;
    let ghost leaves = range_leaves(first, blocks, start, span_len(start, last));
    let mut inner_tree: Option<HistoryAccumulator> = None;
    let mut h: u32 = start;
    proof {
        assert(range_leaves(first, blocks, start, 0) =~~= Seq::<LeafData>::empty());
        assert(build_peaks(Seq::<LeafData>::empty()) == (
            Seq::<crate::mmr::SpecPeak>::empty(),
            0nat,
        ));
    }
    while h <= last
        invariant
            start <= h,
            h as int <= last as int + 1,
            last <= MAX_HEIGHT,
            db.wf(),
            db.first_height == first,
            db.blocks@ == blocks,
            range_present(first, blocks, start, (h - start) as nat),
            ({
                let prefix = range_leaves(first, blocks, start, (h - start) as nat);
                match inner_tree {
                    None => h == start,
                    Some(t) => {
                        &&& h > start
                        &&& t.wf()
                        &&& t.network == db.network
                        &&& t.size as int == h - start
                        &&& t.current_height as int == h as int - 1
                        &&& t.peaks_view() == build_peaks(prefix).0
                        &&& t.node_count as nat == build_peaks(prefix).1
                    },
                }
            }),
        decreases last as int + 1 - h as int,
    {
        let ghost prefix = range_leaves(first, blocks, start, (h - start) as nat);
        let block_digest = match db.block(h) {
            Some(b) => b,
            None => {
                return Err(MigrationError::MissingBlockData(h));
            },
        };
        let sapling_root = match db.sapling_root(h) {
            Some(s) => s,
            None => {
                return Err(MigrationError::MissingBlockData(h));
            },
        };
        let orchard_root = match db.orchard_root(h) {
            Some(o) => o,
            None => {
                return Err(MigrationError::MissingBlockData(h));
            },
        };
        let leaf = LeafData { height: h, block_digest, sapling_root, orchard_root };
        let ghost prefix_new = range_leaves(first, blocks, start, (h + 1 - start) as nat);
        proof {
            assert(leaf == leaf_at(first, blocks, h));
            assert(prefix_new =~~= prefix.push(leaf));
            lemma_build_push(prefix, leaf);
            assert(range_present(first, blocks, start, (h + 1 - start) as nat));
        }
        match &mut inner_tree {
            Some(t) => {
                let _ = t.push(leaf);
            },
            None => {
                let t = HistoryAccumulator::from_block(db.network, leaf);
                proof {
                    lemma_build_single(leaf);
                    assert(prefix =~~= Seq::<LeafData>::empty());
                    assert(prefix_new =~~= seq![leaf]);
                }
                inner_tree = Some(t);
            },
        };
        if cancel_requested(cancel_receiver) {
            return Err(MigrationError::Cancelled);
        }
        h += 1;
    }
    let t = match inner_tree {
        Some(t) => t,
        None => {
            // The range holds at least one block, so the loop ran.
            proof {
                assert(false);
            }
            return Err(MigrationError::MissingBlockData(start));
        },
    };
    proof {
        assert((h - start) as nat == span_len(start, last));
        lemma_build_indexed(leaves);
    }
    let ghost pk = build_peaks(leaves).0;

    if cancel_requested(cancel_receiver) {
        return Err(MigrationError::Cancelled);
    }

    let peaks_idx = t.peak_indices();
    let mut peaks: Vec<HistoryNode> = Vec::new();
    let mut k: usize = 0;
    while k < peaks_idx.len()
        invariant
            k <= peaks_idx.len(),
            peaks@.len() == k,
            peaks_idx@.len() == pk.len(),
            leaves == range_leaves(db.first_height, db.blocks@, start, span_len(start, last)),
            db.wf(),
            forall|j: int| 0 <= j < pk.len() ==> peaks_idx@[j] as nat == (#[trigger] pk[j]).index,
            pk == build_peaks(leaves).0,
            forall|j: int|
                0 <= j < k ==> spec_lookup(
                    db.nodes_view(),
                    HistoryNodeIndex { upgrade, index: peaks_idx@[j] },
                ) == Some(#[trigger] peaks@[j]@),
        decreases peaks_idx.len() - k,
    {
        let key = HistoryNodeIndex { upgrade, index: peaks_idx[k] };
        match db.history_node(key) {
            Some(node) => {
                peaks.push(node);
            },
            None => {
                // The requested key is the k-th peak's own index.
                proof {
                    assert(0 <= k < pk.len() && key.index as nat == pk[k as int].index);
                    assert(exists|j: int|
                        0 <= j < pk.len() && key.index as nat == (#[trigger] pk[j]).index);
                }
                return Err(MigrationError::MissingHistoryNode(key));
            },
        }
        k += 1;
    }

    // Reconstruct a tree purely from the persisted peaks.
    let size = t.size;
    let new_tree = HistoryAccumulator::from_cache(db.network, size, peaks, last);

    if cancel_requested(cancel_receiver) {
        return Err(MigrationError::Cancelled);
    }

    // Compare the root hashes.
    let old_root = t.root();
    let new_root = new_tree.root();
    if old_root.matches(&new_root) {
        proof {
            assert forall|j: int| 0 <= j < pk.len() implies spec_lookup(
                db.nodes_view(),
                HistoryNodeIndex { upgrade, index: (#[trigger] pk[j]).index as u32 },
            ) == Some(pk[j].val) by {
                assert(old_root.peaks_view()[j] == t.peak_vals()[j]);
                assert(t.peak_vals()[j] == pk[j].val);
                assert(new_root.peaks_view()[j] == new_tree.peak_vals()[j]);
                assert(new_tree.peak_vals()[j] == peaks@.map(|m: int, n: HistoryNode| n@)[j]);
                assert(pk[j].index < build_emitted(leaves).len());
                assert(build_emitted(leaves).len() <= 2 * leaves.len());
                assert((pk[j].index as u32) as nat == pk[j].index);
                assert(peaks_idx@[j] == pk[j].index as u32);
            }
        }
        Ok(Ok(()))
    } else {
        proof {
            // Every peak key was read successfully before the roots were compared.
            assert forall|j: int| 0 <= j < pk.len() implies spec_lookup(
                db.nodes_view(),
                HistoryNodeIndex { upgrade, index: (#[trigger] pk[j]).index as u32 },
            ) is Some by {
                assert(pk[j].index < build_emitted(leaves).len());
                assert(build_emitted(leaves).len() <= 2 * leaves.len());
                assert((pk[j].index as u32) as nat == pk[j].index);
                assert(peaks_idx@[j] == pk[j].index as u32);
                assert(spec_lookup(
                    db.nodes_view(),
                    HistoryNodeIndex { upgrade, index: peaks_idx@[j] },
                ) == Some(peaks@[j]@));
            }
            if forall|j: int|
                0 <= j < pk.len() ==> spec_lookup(
                    db.nodes_view(),
                    HistoryNodeIndex { upgrade, index: (#[trigger] pk[j]).index as u32 },
                ) == Some(pk[j].val) {
                assert forall|j: int| 0 <= j < pk.len() implies old_root.peaks_view()[j]
                    == new_root.peaks_view()[j] by {
                    assert(pk[j].index < build_emitted(leaves).len());
                    assert((pk[j].index as u32) as nat == pk[j].index);
                    assert(peaks_idx@[j] == pk[j].index as u32);
                    assert(spec_lookup(
                        db.nodes_view(),
                        HistoryNodeIndex { upgrade, index: peaks_idx@[j] },
                    ) == Some(peaks@[j]@));
                }
                assert(old_root.peaks_view() =~~= new_root.peaks_view());
                assert(false);
            }
        }
        Ok(Err(HistoryTreeMismatch { upgrade }))
    }
}

/// Checks whether the backfill was successful: `Ok(Ok(()))` when every
/// relevant epoch's stored peaks reconstruct the expected root, `Ok(Err(_))`
/// naming the first epoch whose roots disagree, and `Err(_)` on cancellation
/// or missing data.
pub fn check(
    initial_tip_height: u32,
    zebra_db: &FinalizedDb,
    cancel_receiver: &crossbeam_channel::Receiver<CancelFormatChange>,
) -> (r: Result<Result<(), HistoryTreeMismatch>, MigrationError>)
    requires
        zebra_db.wf(),
        initial_tip_height <= MAX_HEIGHT,
    ensures
        ({
            let net = zebra_db.network;
            let first = zebra_db.first_height;
            let blocks = zebra_db.blocks@;
            let tip = initial_tip_height;
            match r {
                Ok(Ok(())) => forall|i: int|
                    0 <= i < 4 && processed_through(net, tip, i)
                        ==> (#[trigger] spec_epoch_peaks_ok(
                        net,
                        first,
                        blocks,
                        zebra_db.nodes_view(),
                        tip,
                        i,
                    ) && range_present(
                        first,
                        blocks,
                        epoch_start(net, i),
                        span_len(epoch_start(net, i), epoch_last(net, tip, i)),
                    )),
                Ok(Err(m)) => exists|i: int|
                    0 <= i < 4 && #[trigger] processed_through(net, tip, i) && m.upgrade
                        == upgrade_at(i) && epoch_peaks_present(
                        net,
                        first,
                        blocks,
                        zebra_db.nodes_view(),
                        tip,
                        i,
                    ) && !spec_epoch_peaks_ok(
                        net,
                        first,
                        blocks,
                        zebra_db.nodes_view(),
                        tip,
                        i,
                    ),
                Err(MigrationError::Cancelled) => true,
                Err(MigrationError::MissingBlockData(h)) => exists|i: int|
                    0 <= i < 4 && #[trigger] processed_through(net, tip, i) && epoch_start(net, i)
                        <= h <= epoch_last(net, tip, i) && record_at(first, blocks, h) is None,
                Err(MigrationError::MissingHistoryNode(key)) => spec_lookup(
                    zebra_db.nodes_view(),
                    key,
                ) is None && (exists|i: int|
                    0 <= i < 4 && #[trigger] processed_through(net, tip, i) && key.upgrade
                        == upgrade_at(i) && (exists|j: int|
                        0 <= j < build_peaks(epoch_leaves(net, first, blocks, tip, i)).0.len()
                            && key.index as nat == (#[trigger] build_peaks(
                            epoch_leaves(net, first, blocks, tip, i),
                        ).0[j]).index)),
            }
        }),
{
    let ghost net = zebra_db.network;
    let ghost first = zebra_db.first_height;
    let ghost blocks = zebra_db.blocks@;
    let ghost tip = initial_tip_height;

    if cancel_requested(cancel_receiver) {
        return Err(MigrationError::Cancelled);
    }

    let network = zebra_db.network;
    let upgrades = upgrades_with_history(network);

    let mut i: usize = 0;
    while i < 4
        invariant
            i <= 4,
            upgrades@ == crate::schedule::spec_schedule(net),
            network == net,
            zebra_db.wf(),
            zebra_db.network == net,
            zebra_db.first_height == first,
            zebra_db.blocks@ == blocks,
            tip == initial_tip_height,
            tip <= MAX_HEIGHT,
            forall|j: int| 0 <= j < i ==> #[trigger] epoch_active(net, tip, j),
            forall|j: int|
                0 <= j < i ==> #[trigger] spec_epoch_peaks_ok(
                    net,
                    first,
                    blocks,
                    zebra_db.nodes_view(),
                    tip,
                    j,
                ),
            forall|j: int|
                0 <= j < i ==> #[trigger] range_present(
                    first,
                    blocks,
                    epoch_start(net, j),
                    span_len(epoch_start(net, j), epoch_last(net, tip, j)),
                ),
        decreases 4 - i,
    {
        let entry = upgrades[i];
        let upgrade = entry.0;
        let activation_height_option = entry.1;
        proof {
            assert(entry == crate::schedule::spec_schedule(net)[i as int]);
            assert(upgrade == upgrade_at(i as int));
            assert(activation_height_option == epoch_activation(net, i as int));
        }

        if cancel_requested(cancel_receiver) {
            return Err(MigrationError::Cancelled);
        }

        // We reached a future upgrade, or the upgrade is not available.
        let activation_height = match activation_height_option {
            Some(a) => a,
            None => {
                proof {
                    assert forall|i2: int|
                        0 <= i2 < 4 && processed_through(net, tip, i2) implies spec_epoch_peaks_ok(
                        net,
                        first,
                        blocks,
                        zebra_db.nodes_view(),
                        tip,
                        i2,
                    ) && range_present(
                        first,
                        blocks,
                        epoch_start(net, i2),
                        span_len(epoch_start(net, i2), epoch_last(net, tip, i2)),
                    ) by {
                        if i2 >= i {
                            assert(epoch_active(net, tip, i as int));
                        }
                    }
                }
                return Ok(Ok(()));
            },
        };

        // We reached the tip.
        if initial_tip_height < activation_height {
            proof {
                assert forall|i2: int|
                    0 <= i2 < 4 && processed_through(net, tip, i2) implies spec_epoch_peaks_ok(
                    net,
                    first,
                    blocks,
                    zebra_db.nodes_view(),
                    tip,
                    i2,
                ) && range_present(
                    first,
                    blocks,
                    epoch_start(net, i2),
                    span_len(epoch_start(net, i2), epoch_last(net, tip, i2)),
                ) by {
                    if i2 >= i {
                        assert(epoch_active(net, tip, i as int));
                    }
                }
            }
            return Ok(Ok(()));
        }
        proof {
            assert(epoch_active(net, tip, i as int));
            assert(processed_through(net, tip, i as int));
        }

        let next_act: Option<u32> = match next_upgrade(upgrade) {
            Some(u) => crate::schedule::activation_height(u, network),
            None => None,
        };
        let last_block_height: u32 = match next_act {
            Some(a) => {
                if a >= 1 {
                    let c = a - 1;
                    if c <= initial_tip_height {
                        c
                    } else {
                        initial_tip_height
                    }
                } else {
                    initial_tip_height
                }
            },
            None => initial_tip_height,
        };
        proof {
            if i < 3 {
                assert(spec_next_upgrade(upgrade_at(i as int)) == Some(upgrade_at(i as int + 1)));
                crate::schedule::lemma_schedule_increasing(net, i as int);
            }
            assert(last_block_height == epoch_last(net, tip, i as int));
            assert(activation_height == epoch_start(net, i as int));
            assert(activation_height <= last_block_height);
        }

        match verify_epoch(zebra_db, upgrade, activation_height, last_block_height, cancel_receiver)
        {
            Ok(Ok(())) => {
                proof {
                    assert(range_leaves(
                        first,
                        blocks,
                        activation_height,
                        span_len(activation_height, last_block_height),
                    ) == epoch_leaves(net, first, blocks, tip, i as int));
                    assert(spec_epoch_peaks_ok(net, first, blocks, zebra_db.nodes_view(), tip,
                        i as int));
                    assert(range_present(
                        first,
                        blocks,
                        epoch_start(net, i as int),
                        span_len(epoch_start(net, i as int), epoch_last(net, tip, i as int)),
                    ));
                }
            },
            Ok(Err(m)) => {
                proof {
                    let local_pk = build_peaks(range_leaves(
                        zebra_db.first_height,
                        zebra_db.blocks@,
                        activation_height,
                        span_len(activation_height, last_block_height),
                    )).0;
                    assert(local_pk == build_peaks(epoch_leaves(net, first, blocks, tip, i as int)).0);
                    assert(!spec_epoch_peaks_ok(net, first, blocks, zebra_db.nodes_view(), tip,
                        i as int));
                    assert forall|j: int|
                        0 <= j < build_peaks(epoch_leaves(net, first, blocks, tip, i as int)).0.len()
                        implies spec_lookup(
                        zebra_db.nodes_view(),
                        HistoryNodeIndex {
                            upgrade: upgrade_at(i as int),
                            index: (#[trigger] build_peaks(
                                epoch_leaves(net, first, blocks, tip, i as int),
                            ).0[j]).index as u32,
                        },
                    ) is Some by {
                        assert(spec_lookup(
                            zebra_db.nodes_view(),
                            HistoryNodeIndex { upgrade, index: (local_pk[j]).index as u32 },
                        ) is Some);
                    }
                    assert(epoch_peaks_present(net, first, blocks, zebra_db.nodes_view(), tip,
                        i as int));
                }
                return Ok(Err(m));
            },
            Err(e) => {
                proof {
                    match e {
                        MigrationError::MissingHistoryNode(key) => {
                            let local_pk = build_peaks(range_leaves(
                                zebra_db.first_height,
                                zebra_db.blocks@,
                                activation_height,
                                span_len(activation_height, last_block_height),
                            )).0;
                            assert(local_pk == build_peaks(
                                epoch_leaves(net, first, blocks, tip, i as int),
                            ).0);
                            let j = choose|j: int|
                                0 <= j < local_pk.len() && key.index as nat == (
                                #[trigger] local_pk[j]).index;
                            assert(0 <= j < build_peaks(
                                epoch_leaves(net, first, blocks, tip, i as int),
                            ).0.len() && key.index as nat == (build_peaks(
                                epoch_leaves(net, first, blocks, tip, i as int),
                            ).0[j]).index);
                        },
                        _ => {},
                    }
                }
                return Err(e);
            },
        }
        i += 1;
    }
    Ok(Ok(()))
}

} // verus!
