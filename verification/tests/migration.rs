use history_backfill::add_history_nodes::{check, run, MigrationError};
use history_backfill::cancel::CancelFormatChange;
use history_backfill::db::{BlockRecord, DiskWriteBatch, FinalizedDb};
use history_backfill::node::{HistoryNode, HistoryNodeIndex, LeafData};
use history_backfill::schedule::{Network, NetworkUpgrade};

const HEARTWOOD_MAINNET: u32 = 903_000;
const CANOPY_MAINNET: u32 = 1_046_400;

fn open_channel() -> (
    crossbeam_channel::Sender<CancelFormatChange>,
    crossbeam_channel::Receiver<CancelFormatChange>,
) {
    crossbeam_channel::bounded(1)
}

fn chain(first: u32, count: u32) -> Vec<BlockRecord> {
    let mut records = Vec::new();
    let mut k: u32 = 0;
    while k < count {
        let h = (first + k) as u64;
        records.push(BlockRecord {
            block_digest: 0x1_0000 + h,
            sapling_root: 0x2_0000 + h,
            orchard_root: 0x3_0000 + h,
        });
        k += 1;
    }
    records
}

fn key(upgrade: NetworkUpgrade, index: u32) -> HistoryNodeIndex {
    HistoryNodeIndex { upgrade, index }
}

#[test]
fn empty_chain_runs_to_empty_store() {
    // No blocks past the first accumulator-supporting epoch: nothing to do.
    let (_tx, rx) = open_channel();
    let mut db = FinalizedDb::new(Network::Mainnet, 0, chain(0, 5), false);
    let outcome = run(4, &mut db, &rx);
    assert!(outcome.is_ok());
    assert_eq!(db.nodes.len(), 0);
    let verdict = check(4, &db, &rx);
    assert!(matches!(verdict, Ok(Ok(()))));
}

#[test]
fn single_epoch_backfill_is_dense() {
    // Eleven blocks past Heartwood: 2*11 - popcount(11) = 19 nodes, indices 0..19.
    let (_tx, rx) = open_channel();
    let tip = HEARTWOOD_MAINNET + 10;
    let mut db = FinalizedDb::new(Network::Mainnet, HEARTWOOD_MAINNET, chain(HEARTWOOD_MAINNET, 11), true);
    let outcome = run(tip, &mut db, &rx);
    assert!(outcome.is_ok());
    assert_eq!(db.nodes.len(), 19);
    let mut i: u32 = 0;
    while i < 19 {
        assert!(db.history_node(key(NetworkUpgrade::Heartwood, i)).is_some());
        i += 1;
    }
    assert!(db.history_node(key(NetworkUpgrade::Heartwood, 19)).is_none());
    assert!(db.history_node(key(NetworkUpgrade::Canopy, 0)).is_none());
    assert!(db.history_node(key(NetworkUpgrade::Nu5, 0)).is_none());
}

#[test]
fn checker_accepts_fresh_backfill() {
    let (_tx, rx) = open_channel();
    let tip = HEARTWOOD_MAINNET + 10;
    let mut db = FinalizedDb::new(Network::Mainnet, HEARTWOOD_MAINNET, chain(HEARTWOOD_MAINNET, 11), true);
    assert!(run(tip, &mut db, &rx).is_ok());
    let verdict = check(tip, &db, &rx);
    assert!(matches!(verdict, Ok(Ok(()))));
}

#[test]
fn run_twice_persists_identical_records() {
    let (_tx, rx) = open_channel();
    let tip = HEARTWOOD_MAINNET + 10;
    let mut db = FinalizedDb::new(Network::Mainnet, HEARTWOOD_MAINNET, chain(HEARTWOOD_MAINNET, 11), true);
    assert!(run(tip, &mut db, &rx).is_ok());
    let mut snapshot: Vec<(HistoryNodeIndex, HistoryNode)> = Vec::new();
    for entry in db.nodes.iter() {
        snapshot.push((entry.0, entry.1.duplicate()));
    }
    assert!(run(tip, &mut db, &rx).is_ok());
    assert_eq!(db.nodes.len(), snapshot.len());
    for (stored, kept) in db.nodes.iter().zip(snapshot.iter()) {
        assert_eq!(stored.0, kept.0);
        assert!(stored.1 == kept.1);
    }
}

#[test]
fn two_epochs_reset_index_and_share_no_keys() {
    // Chain spanning the Heartwood/Canopy boundary, three blocks into Canopy.
    let (_tx, rx) = open_channel();
    let tip = CANOPY_MAINNET + 2;
    let count = tip - HEARTWOOD_MAINNET + 1;
    let mut db = FinalizedDb::new(Network::Mainnet, HEARTWOOD_MAINNET, chain(HEARTWOOD_MAINNET, count), true);
    assert!(run(tip, &mut db, &rx).is_ok());

    // Heartwood covers 143_400 blocks: 2*143_400 - popcount(143_400) = 286_795 nodes.
    let heartwood_leaves = CANOPY_MAINNET - HEARTWOOD_MAINNET;
    let heartwood_nodes = 2 * heartwood_leaves - (heartwood_leaves.count_ones());
    assert!(db.history_node(key(NetworkUpgrade::Heartwood, 0)).is_some());
    assert!(db.history_node(key(NetworkUpgrade::Heartwood, heartwood_nodes - 1)).is_some());
    assert!(db.history_node(key(NetworkUpgrade::Heartwood, heartwood_nodes)).is_none());

    // Canopy's index space starts again at 0: three blocks emit four nodes.
    assert!(db.history_node(key(NetworkUpgrade::Canopy, 0)).is_some());
    assert!(db.history_node(key(NetworkUpgrade::Canopy, 3)).is_some());
    assert!(db.history_node(key(NetworkUpgrade::Canopy, 4)).is_none());

    assert_eq!(db.nodes.len() as u32, heartwood_nodes + 4);

    let verdict = check(tip, &db, &rx);
    assert!(matches!(verdict, Ok(Ok(()))));
}

#[test]
fn cancellation_before_start_leaves_store_cleared() {
    let (tx, rx) = open_channel();
    tx.send(CancelFormatChange).unwrap();
    let tip = HEARTWOOD_MAINNET + 10;
    let mut db = FinalizedDb::new(Network::Mainnet, HEARTWOOD_MAINNET, chain(HEARTWOOD_MAINNET, 11), true);
    let outcome = run(tip, &mut db, &rx);
    assert_eq!(outcome, Err(MigrationError::Cancelled));
    assert_eq!(db.nodes.len(), 0);
}

#[test]
fn disconnected_channel_counts_as_cancellation() {
    let (tx, rx) = open_channel();
    drop(tx);
    let tip = HEARTWOOD_MAINNET + 10;
    let mut db = FinalizedDb::new(Network::Mainnet, HEARTWOOD_MAINNET, chain(HEARTWOOD_MAINNET, 11), true);
    assert_eq!(run(tip, &mut db, &rx), Err(MigrationError::Cancelled));
}

#[test]
fn check_honors_cancellation() {
    let (tx, rx) = open_channel();
    tx.send(CancelFormatChange).unwrap();
    let tip = HEARTWOOD_MAINNET + 10;
    let db = FinalizedDb::new(Network::Mainnet, HEARTWOOD_MAINNET, chain(HEARTWOOD_MAINNET, 11), true);
    assert_eq!(check(tip, &db, &rx), Err(MigrationError::Cancelled));
}

#[test]
fn missing_block_is_reported_as_corruption() {
    // The tip claims ten blocks past activation but only five are stored.
    let (_tx, rx) = open_channel();
    let tip = HEARTWOOD_MAINNET + 10;
    let mut db = FinalizedDb::new(Network::Mainnet, HEARTWOOD_MAINNET, chain(HEARTWOOD_MAINNET, 5), true);
    let outcome = run(tip, &mut db, &rx);
    assert_eq!(outcome, Err(MigrationError::MissingBlockData(HEARTWOOD_MAINNET + 5)));
}

#[test]
fn check_reports_missing_node_as_corruption() {
    // Two finalized blocks but no backfill ever ran: the peak node is absent.
    let (_tx, rx) = open_channel();
    let tip = HEARTWOOD_MAINNET + 1;
    let db = FinalizedDb::new(Network::Mainnet, HEARTWOOD_MAINNET, chain(HEARTWOOD_MAINNET, 2), true);
    let verdict = check(tip, &db, &rx);
    assert_eq!(
        verdict,
        Err(MigrationError::MissingHistoryNode(key(NetworkUpgrade::Heartwood, 2)))
    );
}

#[test]
fn tampered_peak_node_is_reported_as_mismatch() {
    let (_tx, rx) = open_channel();
    let tip = HEARTWOOD_MAINNET + 10;
    let mut db = FinalizedDb::new(Network::Mainnet, HEARTWOOD_MAINNET, chain(HEARTWOOD_MAINNET, 11), true);
    assert!(run(tip, &mut db, &rx).is_ok());

    // Index 18 is the peak covering the last leaf; overwrite it.
    let mut batch = DiskWriteBatch::new();
    let bogus = HistoryNode {
        leaves: vec![LeafData { height: 1, block_digest: 7, sapling_root: 7, orchard_root: 7 }],
    };
    batch.write_history_node(key(NetworkUpgrade::Heartwood, 18), bogus);
    db.write_batch(batch);

    let verdict = check(tip, &db, &rx);
    match verdict {
        Ok(Err(mismatch)) => assert_eq!(mismatch.upgrade, NetworkUpgrade::Heartwood),
        other => panic!("expected a root mismatch, got {:?}", other),
    }
}
