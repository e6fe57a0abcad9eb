//! Where the store of each network lives.
use vstd::prelude::*;
use crate::error::StateError;

verus! {

/// The network whose chain the store holds.
#[derive(Clone, Copy, Debug, PartialEq, Eq, Structural)]
pub enum Network {
    Mainnet,
    Testnet,
}

/// The name of the directory that holds a network's state.
pub open spec fn network_dir_spec(network: Network) -> Seq<char> {
    match network {
        Network::Mainnet => "mainnet"@,
        Network::Testnet => "testnet"@,
    }
}

/// The name of the directory, under a network's directory, that holds the
/// store.
pub open spec fn state_dir_spec() -> Seq<char> {
    "state"@
}

/// The name of the directory that holds a network's state.
pub fn network_dir(network: Network) -> (r: &'static str)
    ensures
        r@ == network_dir_spec(network),
{
    match network {
        Network::Mainnet => "mainnet",
        Network::Testnet => "testnet",
    }
}

/// The name of the directory, under a network's directory, that holds the
/// store.
pub fn state_dir_name() -> (r: &'static str)
    ensures
        r@ == state_dir_spec(),
{
    "state"
}

/// Configuration of the store.
pub struct Config {
    /// The root directory for cached data. Each network's store is in
    /// `<cache_dir>/mainnet/state` or `<cache_dir>/testnet/state`.
    pub cache_dir: Option<String>,
}

/// The parts of the path of a network's store, from the root down.
pub struct StatePath {
    pub cache_dir: String,
    pub network_dir: &'static str,
    pub state_dir: &'static str,
}

impl Config {
    /// The path of `network`'s store; a configuration error when no cache
    /// directory is set.
    pub fn state_path(&self, network: Network) -> (r: Result<StatePath, StateError>)
        ensures
            match self.cache_dir {
                None => r == Err::<StatePath, StateError>(StateError::ConfigMissing),
                Some(dir) => r matches Ok(p) && p.cache_dir@ == dir@ && p.network_dir@
                    == network_dir_spec(network) && p.state_dir@ == state_dir_spec(),
            },
    {
        match &self.cache_dir {
            None => Err(StateError::ConfigMissing),
            Some(dir) => Ok(
                StatePath {
                    cache_dir: dir.clone(),
                    network_dir: network_dir(network),
                    state_dir: state_dir_name(),
                },
            ),
        }
    }
}

} // verus!
