//! Model of the finalized-state database, at the interface the migration
//! consumes: per-height chain data, the tip accumulator query, and persisted
//! history nodes written through atomic batches.

use vstd::prelude::*;

use crate::node::{HistoryNode, HistoryNodeIndex, LeafData};
use crate::schedule::{Network, MAX_HEIGHT};

verus! {

/// What the database holds for one finalized block: the block digest and the
/// two shielded-pool commitment-tree roots as of that height.
#[derive(Clone, Copy, PartialEq, Eq, Structural, Debug)]
pub struct BlockRecord {
    pub block_digest: u64,
    pub sapling_root: u64,
    pub orchard_root: u64,
}

/// One staged write of a batch.
pub enum BatchOp {
    ClearHistoryNodes,
    WriteHistoryNode(HistoryNodeIndex, HistoryNode),
}

/// Spec-level value of one staged write.
#[verifier::ext_equal]
pub ghost enum SpecBatchOp {
    Clear,
    Write(HistoryNodeIndex, Seq<LeafData>),
}

pub open spec fn op_view(op: BatchOp) -> SpecBatchOp {
    match op {
        BatchOp::ClearHistoryNodes => SpecBatchOp::Clear,
        BatchOp::WriteHistoryNode(key, node) => SpecBatchOp::Write(key, node@),
    }
}

/// A batch of staged writes, committed atomically and in order.
pub struct DiskWriteBatch {
    pub ops: Vec<BatchOp>,
}

impl DiskWriteBatch {
    pub open spec fn ops_view(&self) -> Seq<SpecBatchOp> {
        self.ops@.map(|i: int, op: BatchOp| op_view(op))
    }

    pub fn new() -> (b: DiskWriteBatch)
        ensures
            b.ops_view() == Seq::<SpecBatchOp>::empty(),
    {
        let b = DiskWriteBatch { ops: Vec::new() };
        proof {
            assert(b.ops_view() =~~= Seq::<SpecBatchOp>::empty());
        }
        b
    }

    /// Stage the deletion of every persisted history node.
    pub fn clear_history_nodes(&mut self)
        ensures
            final(self).ops_view() == old(self).ops_view().push(SpecBatchOp::Clear),
    {
        self.ops.push(BatchOp::ClearHistoryNodes);
        proof {
            assert(self.ops_view() =~~= old(self).ops_view().push(SpecBatchOp::Clear));
        }
    }

    /// Stage one history node under its key.
    pub fn write_history_node(&mut self, key: HistoryNodeIndex, node: HistoryNode)
        ensures
            final(self).ops_view() == old(self).ops_view().push(
                SpecBatchOp::Write(key, node@),
            ),
    {
        let ghost n = node@;
        self.ops.push(BatchOp::WriteHistoryNode(key, node));
        proof {
            assert(self.ops_view() =~~= old(self).ops_view().push(SpecBatchOp::Write(key, n)));
        }
    }
}

/// The value stored under `key`, `None` when no write for `key` is live.
/// Later writes shadow earlier ones.
pub open spec fn spec_lookup(
    nodes: Seq<(HistoryNodeIndex, Seq<LeafData>)>,
    key: HistoryNodeIndex,
) -> Option<Seq<LeafData>>
    decreases nodes.len(),
{
    if nodes.len() == 0 {
        None
    } else if nodes.last().0 == key {
        Some(nodes.last().1)
    } else {
        spec_lookup(nodes.drop_last(), key)
    }
}

/// The node store after applying a batch's staged writes in order.
pub open spec fn apply_ops(
    nodes: Seq<(HistoryNodeIndex, Seq<LeafData>)>,
    ops: Seq<SpecBatchOp>,
) -> Seq<(HistoryNodeIndex, Seq<LeafData>)>
    decreases ops.len(),
{
    if ops.len() == 0 {
        nodes
    } else {
        let prev = apply_ops(nodes, ops.drop_last());
        match ops.last() {
            SpecBatchOp::Clear => Seq::empty(),
            SpecBatchOp::Write(key, val) => prev.push((key, val)),
        }
    }
}

/// The finalized-state database: the chain it belongs to, a contiguous run
/// of finalized block records starting at `first_height`, whether the tip
/// currently carries a history accumulator, and the persisted history nodes
/// in write order.
pub struct FinalizedDb {
    pub network: Network,
    pub first_height: u32,
    pub blocks: Vec<BlockRecord>,
    pub has_history_tree: bool,
    pub nodes: Vec<(HistoryNodeIndex, HistoryNode)>,
}

impl FinalizedDb {
    pub open spec fn wf(&self) -> bool {
        self.first_height as int + self.blocks@.len() <= MAX_HEIGHT as int + 1
    }

    /// The persisted history nodes, in write order, at spec level.
    pub open spec fn nodes_view(&self) -> Seq<(HistoryNodeIndex, Seq<LeafData>)> {
        self.nodes@.map(|i: int, e: (HistoryNodeIndex, HistoryNode)| (e.0, e.1@))
    }

    /// The record finalized at `height`, if the chain reaches it.
    pub open spec fn spec_record(&self, height: u32) -> Option<BlockRecord> {
        crate::db::record_at(self.first_height, self.blocks@, height)
    }

    pub fn new(network: Network, first_height: u32, blocks: Vec<BlockRecord>, has_history_tree:
        bool) -> (db: FinalizedDb)
        requires
            first_height as int + blocks@.len() <= MAX_HEIGHT as int + 1,
        ensures
            db.wf(),
            db.network == network,
            db.first_height == first_height,
            db.blocks@ == blocks@,
            db.has_history_tree == has_history_tree,
            db.nodes_view() == Seq::<(HistoryNodeIndex, Seq<LeafData>)>::empty(),
    {
        let db = FinalizedDb { network, first_height, blocks, has_history_tree, nodes: Vec::new() };
        proof {
            assert(db.nodes_view() =~~= Seq::<(HistoryNodeIndex, Seq<LeafData>)>::empty());
        }
        db
    }

    /// The block digest at `height`.
    pub fn block(&self, height: u32) -> (r: Option<u64>)
        ensures
            r == match self.spec_record(height) {
                Some(rec) => Some(rec.block_digest),
                None => None::<u64>,
            },
    {
        match self.record(height) {
            Some(rec) => Some(rec.block_digest),
            None => None,
        }
    }

    /// The sapling commitment-tree root as of `height`.
    pub fn sapling_root(&self, height: u32) -> (r: Option<u64>)
        ensures
            r == match self.spec_record(height) {
                Some(rec) => Some(rec.sapling_root),
                None => None::<u64>,
            },
    {
        match self.record(height) {
            Some(rec) => Some(rec.sapling_root),
            None => None,
        }
    }

    /// The orchard commitment-tree root as of `height`.
    pub fn orchard_root(&self, height: u32) -> (r: Option<u64>)
        ensures
            r == match self.spec_record(height) {
                Some(rec) => Some(rec.orchard_root),
                None => None::<u64>,
            },
    {
        match self.record(height) {
            Some(rec) => Some(rec.orchard_root),
            None => None,
        }
    }

    fn record(&self, height: u32) -> (r: Option<BlockRecord>)
        ensures
            r == self.spec_record(height),
    {
        if height >= self.first_height {
            let offset = (height - self.first_height) as usize;
            if offset < self.blocks.len() {
                Some(self.blocks[offset])
            } else {
                None
            }
        } else {
            None
        }
    }

    /// The persisted history node under `key`, if one is live.
    pub fn history_node(&self, key: HistoryNodeIndex) -> (r: Option<HistoryNode>)
        ensures
            match (r, spec_lookup(self.nodes_view(), key)) {
                (Some(node), Some(val)) => node@ == val,
                (None, None) => true,
                _ => false,
            },
    {
        let mut i: usize = self.nodes.len();
        proof {
            assert(self.nodes_view().take(self.nodes@.len() as int) =~~= self.nodes_view());
        }
        while i > 0
            invariant
                i <= self.nodes.len(),
                spec_lookup(self.nodes_view(), key) == spec_lookup(
                    self.nodes_view().take(i as int),
                    key,
                ),
            decreases i,
        {
            let entry_key = self.nodes[i - 1].0;
            proof {
                assert(self.nodes_view().take(i as int).last() == self.nodes_view()[i - 1]);
                assert(self.nodes_view().take(i as int).drop_last() =~~= self.nodes_view().take(
                    i - 1,
                ));
            }
            if entry_key == key {
                return Some(self.nodes[i - 1].1.duplicate());
            }
            i -= 1;
        }
        None
    }

    /// Commit a batch atomically: its staged writes are applied in order.
    pub fn write_batch(&mut self, batch: DiskWriteBatch)
        ensures
            final(self).wf() == old(self).wf(),
            final(self).network == old(self).network,
            final(self).first_height == old(self).first_height,
            final(self).blocks@ == old(self).blocks@,
            final(self).has_history_tree == old(self).has_history_tree,
            final(self).nodes_view() == apply_ops(old(self).nodes_view(), batch.ops_view()),
    {
        let mut i: usize = 0;
        while i < batch.ops.len()
            invariant
                i <= batch.ops.len(),
                self.wf() == old(self).wf(),
                self.network == old(self).network,
                self.first_height == old(self).first_height,
                self.blocks@ == old(self).blocks@,
                self.has_history_tree == old(self).has_history_tree,
                self.nodes_view() == apply_ops(old(self).nodes_view(), batch.ops_view().take(
                    i as int,
                )),
            decreases batch.ops.len() - i,
        {
            let ghost before = self.nodes_view();
            proof {
                assert(batch.ops_view().take(i + 1).drop_last() =~~= batch.ops_view().take(i as int));
                assert(batch.ops_view().take(i + 1).last() == batch.ops_view()[i as int]);
            }
            match &batch.ops[i] {
                BatchOp::ClearHistoryNodes => {
                    self.nodes = Vec::new();
                    proof {
                        assert(self.nodes_view() =~~= Seq::<(HistoryNodeIndex, Seq<LeafData>)>::empty());
                    }
                },
                BatchOp::WriteHistoryNode(key, node) => {
                    self.nodes.push((*key, node.duplicate()));
                    proof {
                        assert(self.nodes_view() =~~= before.push((*key, node@)));
                    }
                },
            }
            i += 1;
        }
        proof {
            assert(batch.ops_view().take(batch.ops@.len() as int) =~~= batch.ops_view());
        }
    }
}

/// The record finalized at `height` in a chain whose records run contiguously
/// from `first`.
pub open spec fn record_at(first: u32, blocks: Seq<BlockRecord>, height: u32) -> Option<BlockRecord> {
    if first <= height && (height as int) < first as int + blocks.len() {
        Some(blocks[height as int - first as int])
    } else {
        None
    }
}

/// The leaf the accumulator absorbs for `height`; a default stands in where
/// the chain has no record.
pub open spec fn leaf_at(first: u32, blocks: Seq<BlockRecord>, height: u32) -> LeafData {
    match record_at(first, blocks, height) {
        Some(rec) => LeafData {
            height,
            block_digest: rec.block_digest,
            sapling_root: rec.sapling_root,
            orchard_root: rec.orchard_root,
        },
        None => LeafData { height, block_digest: 0, sapling_root: 0, orchard_root: 0 },
    }
}

/// The first `n` leaves of the range starting at `start`.
pub open spec fn range_leaves(first: u32, blocks: Seq<BlockRecord>, start: u32, n: nat) -> Seq<
    LeafData,
> {
    Seq::new(n, |j: int| leaf_at(first, blocks, (start + j) as u32))
}

/// Whether the chain holds a record for each of the `n` heights from `start`.
pub open spec fn range_present(first: u32, blocks: Seq<BlockRecord>, start: u32, n: nat) -> bool {
    forall|j: int| 0 <= j < n ==> (#[trigger] record_at(first, blocks, (start + j) as u32)) is Some
}

} // verus!
