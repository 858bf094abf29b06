//! Networks and the description trait.

use vstd::prelude::*;

verus! {

/// The parameters from which addresses of a network are derived.
#[derive(Clone, Copy, Debug, PartialEq, Eq, Structural)]
pub struct AddressParams {
    /// The base58 prefix for p2pkh addresses.
    pub p2pkh_prefix: u8,
    /// The base58 prefix for p2sh addresses.
    pub p2sh_prefix: u8,
    /// The base58 prefix for blinded addresses.
    pub blinded_prefix: u8,
}

impl AddressParams {
    /// The address parameters of the Liquid network.
    pub open spec fn liquid() -> AddressParams {
        AddressParams { p2pkh_prefix: 57, p2sh_prefix: 39, blinded_prefix: 12 }
    }

    /// The address parameters of the default Elements network.
    pub open spec fn elements() -> AddressParams {
        AddressParams { p2pkh_prefix: 235, p2sh_prefix: 75, blinded_prefix: 4 }
    }
}

/// Known Elements networks.
#[derive(Clone, Copy, Debug, PartialEq, Eq, Structural)]
pub enum Network {
    ElementsRegtest,
    Liquid,
}

impl Network {
    /// The network that the given address parameters belong to, if it is a
    /// known one.
    pub fn from_params(params: &AddressParams) -> (network: Option<Network>)
        ensures
            network == if *params == AddressParams::elements() {
                Some(Network::ElementsRegtest)
            } else if *params == AddressParams::liquid() {
                Some(Network::Liquid)
            } else {
                None
            },
    {
        if params.p2pkh_prefix == 235 && params.p2sh_prefix == 75 && params.blinded_prefix == 4 {
            Some(Network::ElementsRegtest)
        } else if params.p2pkh_prefix == 57 && params.p2sh_prefix == 39 && params.blinded_prefix == 12 {
            Some(Network::Liquid)
        } else {
            None
        }
    }

    /// The address parameters of the network.
    pub fn address_params(self) -> (params: AddressParams)
        ensures
            params == match self {
                Network::ElementsRegtest => AddressParams::elements(),
                Network::Liquid => AddressParams::liquid(),
            },
    {
        match self {
            Network::ElementsRegtest => AddressParams { p2pkh_prefix: 235, p2sh_prefix: 75, blinded_prefix: 4 },
            Network::Liquid => AddressParams { p2pkh_prefix: 57, p2sh_prefix: 39, blinded_prefix: 12 },
        }
    }
}

/// Get plain, printable objects that describe the type.
pub trait GetInfo<T> {
    /// Whether `info` is the description of `self` on the given network.
    spec fn described_by(&self, network: Network, info: &T) -> bool;

    /// Get a description of this object given the network of interest.
    fn get_info(&self, network: Network) -> (info: T)
        ensures
            self.described_by(network, &info),
    ;
}

} // verus!
