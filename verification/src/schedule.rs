//! Networks, network upgrades, and the activation-height schedule of the
//! upgrades that carry a history accumulator.

use vstd::prelude::*;

verus! {

/// Greatest block height the chain can ever reach.
pub const MAX_HEIGHT: u32 = 499_999_999;

/// The chain a database belongs to.
#[derive(Clone, Copy, PartialEq, Eq, Structural, Debug)]
pub enum Network {
    Mainnet,
    Testnet,
}

/// The consensus-rule eras that carry a history accumulator, oldest first.
#[derive(Clone, Copy, PartialEq, Eq, Structural, Debug, Hash)]
pub enum NetworkUpgrade {
    Heartwood,
    Canopy,
    Nu5,
    Nu6,
}

/// Activation height of an upgrade on a network, `None` when the upgrade is
/// not scheduled there.
pub open spec fn spec_activation_height(upgrade: NetworkUpgrade, network: Network) -> Option<u32> {
    match (upgrade, network) {
        (NetworkUpgrade::Heartwood, Network::Mainnet) => Some(903_000u32),
        (NetworkUpgrade::Canopy, Network::Mainnet) => Some(1_046_400u32),
        (NetworkUpgrade::Nu5, Network::Mainnet) => Some(1_687_104u32),
        (NetworkUpgrade::Nu6, Network::Mainnet) => Some(2_726_400u32),
        (NetworkUpgrade::Heartwood, Network::Testnet) => Some(903_800u32),
        (NetworkUpgrade::Canopy, Network::Testnet) => Some(1_028_500u32),
        (NetworkUpgrade::Nu5, Network::Testnet) => Some(1_842_420u32),
        (NetworkUpgrade::Nu6, Network::Testnet) => Some(2_976_000u32),
    }
}

pub fn activation_height(upgrade: NetworkUpgrade, network: Network) -> (h: Option<u32>)
    ensures
        h == spec_activation_height(upgrade, network),
{
    match (upgrade, network) {
        (NetworkUpgrade::Heartwood, Network::Mainnet) => Some(903_000),
        (NetworkUpgrade::Canopy, Network::Mainnet) => Some(1_046_400),
        (NetworkUpgrade::Nu5, Network::Mainnet) => Some(1_687_104),
        (NetworkUpgrade::Nu6, Network::Mainnet) => Some(2_726_400),
        (NetworkUpgrade::Heartwood, Network::Testnet) => Some(903_800),
        (NetworkUpgrade::Canopy, Network::Testnet) => Some(1_028_500),
        (NetworkUpgrade::Nu5, Network::Testnet) => Some(1_842_420),
        (NetworkUpgrade::Nu6, Network::Testnet) => Some(2_976_000),
    }
}

/// The upgrade that follows `upgrade` chronologically, `None` for the last.
pub open spec fn spec_next_upgrade(upgrade: NetworkUpgrade) -> Option<NetworkUpgrade> {
    match upgrade {
        NetworkUpgrade::Heartwood => Some(NetworkUpgrade::Canopy),
        NetworkUpgrade::Canopy => Some(NetworkUpgrade::Nu5),
        NetworkUpgrade::Nu5 => Some(NetworkUpgrade::Nu6),
        NetworkUpgrade::Nu6 => None,
    }
}

pub fn next_upgrade(upgrade: NetworkUpgrade) -> (r: Option<NetworkUpgrade>)
    ensures
        r == spec_next_upgrade(upgrade),
{
    match upgrade {
        NetworkUpgrade::Heartwood => Some(NetworkUpgrade::Canopy),
        NetworkUpgrade::Canopy => Some(NetworkUpgrade::Nu5),
        NetworkUpgrade::Nu5 => Some(NetworkUpgrade::Nu6),
        NetworkUpgrade::Nu6 => None,
    }
}

/// The upgrade at position `i` of the schedule, oldest first.
pub open spec fn upgrade_at(i: int) -> NetworkUpgrade {
    if i == 0 {
        NetworkUpgrade::Heartwood
    } else if i == 1 {
        NetworkUpgrade::Canopy
    } else if i == 2 {
        NetworkUpgrade::Nu5
    } else {
        NetworkUpgrade::Nu6
    }
}

/// The ordered list of upgrades with history-accumulator support, each with
/// its activation height on `network`.
pub open spec fn spec_schedule(network: Network) -> Seq<(NetworkUpgrade, Option<u32>)> {
    Seq::new(4, |i: int| (upgrade_at(i), spec_activation_height(upgrade_at(i), network)))
}

pub fn upgrades_with_history(network: Network) -> (v: Vec<(NetworkUpgrade, Option<u32>)>)
    ensures
        v@ == spec_schedule(network),
{
    let mut v: Vec<(NetworkUpgrade, Option<u32>)> = Vec::new();
    v.push((NetworkUpgrade::Heartwood, activation_height(NetworkUpgrade::Heartwood, network)));
    v.push((NetworkUpgrade::Canopy, activation_height(NetworkUpgrade::Canopy, network)));
    v.push((NetworkUpgrade::Nu5, activation_height(NetworkUpgrade::Nu5, network)));
    v.push((NetworkUpgrade::Nu6, activation_height(NetworkUpgrade::Nu6, network)));
    proof {
        assert(v@ =~= spec_schedule(network));
    }
    v
}

/// Scheduled activation heights are strictly increasing along the schedule,
/// on every supported network.
pub proof fn lemma_schedule_increasing(network: Network, i: int)
    requires
        0 <= i < 3,
    ensures
        spec_activation_height(upgrade_at(i), network) is Some,
        spec_activation_height(upgrade_at(i + 1), network) is Some,
        spec_activation_height(upgrade_at(i), network)->0
            < spec_activation_height(upgrade_at(i + 1), network)->0,
        spec_activation_height(upgrade_at(i), network)->0 > 0,
{
}

} // verus!
