use history_backfill::node::LeafData;
use history_backfill::schedule::{
    activation_height, next_upgrade, upgrades_with_history, Network, NetworkUpgrade,
};
use history_backfill::tree::HistoryAccumulator;

fn leaf(height: u32) -> LeafData {
    LeafData {
        height,
        block_digest: 0x10 + height as u64,
        sapling_root: 0x20 + height as u64,
        orchard_root: 0x30 + height as u64,
    }
}

#[test]
fn mainnet_schedule_is_the_known_table() {
    let schedule = upgrades_with_history(Network::Mainnet);
    assert_eq!(schedule.len(), 4);
    assert_eq!(schedule[0], (NetworkUpgrade::Heartwood, Some(903_000)));
    assert_eq!(schedule[1], (NetworkUpgrade::Canopy, Some(1_046_400)));
    assert_eq!(schedule[2], (NetworkUpgrade::Nu5, Some(1_687_104)));
    assert_eq!(schedule[3], (NetworkUpgrade::Nu6, Some(2_726_400)));
}

#[test]
fn testnet_schedule_is_the_known_table() {
    let schedule = upgrades_with_history(Network::Testnet);
    assert_eq!(schedule[0].1, Some(903_800));
    assert_eq!(schedule[1].1, Some(1_028_500));
    assert_eq!(schedule[2].1, Some(1_842_420));
    assert_eq!(schedule[3].1, Some(2_976_000));
}

#[test]
fn upgrades_follow_each_other() {
    assert_eq!(next_upgrade(NetworkUpgrade::Heartwood), Some(NetworkUpgrade::Canopy));
    assert_eq!(next_upgrade(NetworkUpgrade::Canopy), Some(NetworkUpgrade::Nu5));
    assert_eq!(next_upgrade(NetworkUpgrade::Nu5), Some(NetworkUpgrade::Nu6));
    assert_eq!(next_upgrade(NetworkUpgrade::Nu6), None);
    assert_eq!(activation_height(NetworkUpgrade::Heartwood, Network::Mainnet), Some(903_000));
}

#[test]
fn absorbing_blocks_advances_height_and_size_by_one() {
    let mut tree = HistoryAccumulator::from_block(Network::Mainnet, leaf(100));
    assert_eq!(tree.size, 1);
    assert_eq!(tree.current_height, 100);
    assert_eq!(tree.node_count, 1);

    // The second block merges with the first: a leaf node plus one parent.
    let emitted = tree.push(leaf(101));
    assert_eq!(emitted.len(), 2);
    assert_eq!(tree.size, 2);
    assert_eq!(tree.current_height, 101);
    assert_eq!(tree.node_count, 3);

    // The third block stands alone: a single leaf node.
    let emitted = tree.push(leaf(102));
    assert_eq!(emitted.len(), 1);
    assert_eq!(tree.size, 3);
    assert_eq!(tree.current_height, 102);
    assert_eq!(tree.node_count, 4);
}

#[test]
fn peaks_match_the_binary_decomposition() {
    let mut tree = HistoryAccumulator::from_block(Network::Mainnet, leaf(0));
    let mut h: u32 = 1;
    while h < 11 {
        let _ = tree.push(leaf(h));
        h += 1;
    }
    // Eleven leaves decompose as 8 + 2 + 1; the peak indices in emission
    // order are 14, 17 and 18.
    let indices = tree.peak_indices();
    assert_eq!(indices, vec![14, 17, 18]);
    assert_eq!(tree.node_count, 19);
}

#[test]
fn cached_reconstruction_reproduces_the_root() {
    let mut tree = HistoryAccumulator::from_block(Network::Mainnet, leaf(0));
    let mut h: u32 = 1;
    while h < 11 {
        let _ = tree.push(leaf(h));
        h += 1;
    }
    let peaks = tree.peak_nodes();
    let rebuilt = HistoryAccumulator::from_cache(Network::Mainnet, tree.size, peaks, tree.current_height);
    assert!(tree.root().matches(&rebuilt.root()));
}

#[test]
fn a_wrong_peak_changes_the_root() {
    let mut tree = HistoryAccumulator::from_block(Network::Mainnet, leaf(0));
    let _ = tree.push(leaf(1));
    let mut peaks = tree.peak_nodes();
    peaks[0].leaves[0] = leaf(99);
    let rebuilt = HistoryAccumulator::from_cache(Network::Mainnet, tree.size, peaks, tree.current_height);
    assert!(!tree.root().matches(&rebuilt.root()));
}
