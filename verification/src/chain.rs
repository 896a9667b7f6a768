//! The Bitcoin networks the service can run against.

use crate::text::{decimal, u64_to_decimal};
use vstd::prelude::*;
use vstd::string::*;

verus! {

/// A Bitcoin network.
#[derive(Clone, Copy, Debug, PartialEq, Eq, Structural)]
pub enum Chain {
    Mainnet,
    Testnet,
    Regtest,
}

impl Chain {
    /// The port on which a node of this network serves RPC by default.
    pub open spec fn spec_default_rpc_port(self) -> u16 {
        match self {
            Chain::Mainnet => 8332,
            Chain::Testnet => 18332,
            Chain::Regtest => 19001,
        }
    }

    /// The name of the network.
    pub open spec fn name(self) -> Seq<char> {
        match self {
            Chain::Mainnet => "mainnet"@,
            Chain::Testnet => "testnet"@,
            Chain::Regtest => "regtest"@,
        }
    }

    /// The network called `name`, if there is one.
    pub open spec fn named(name: Seq<char>) -> Option<Chain> {
        if name == "mainnet"@ {
            Some(Chain::Mainnet)
        } else if name == "testnet"@ {
            Some(Chain::Testnet)
        } else if name == "regtest"@ {
            Some(Chain::Regtest)
        } else {
            None
        }
    }

    /// The port on which a node of this network serves RPC by default.
    #[verifier::when_used_as_spec(spec_default_rpc_port)]
    pub fn default_rpc_port(self) -> (port: u16)
        ensures
            port == self.spec_default_rpc_port(),
    {
        match self {
            Chain::Mainnet => 8332,
            Chain::Testnet => 18332,
            Chain::Regtest => 19001,
        }
    }

    /// The name of the network.
    pub fn as_str(self) -> (name: &'static str)
        ensures
            name@ == self.name(),
    {
        match self {
            Chain::Mainnet => "mainnet",
            Chain::Testnet => "testnet",
            Chain::Regtest => "regtest",
        }
    }

    /// The name of the network, as an owned string.
    pub fn to_string(&self) -> (name: String)
        ensures
            name@ == self.name(),
    {
        self.as_str().to_owned()
    }

    /// Reads the name of a network. A name that stands for none gives the
    /// message `unknown chain: ` followed by the name.
    pub fn from_str(s: &str) -> (r: Result<Chain, String>)
        ensures
            match r {
                Ok(chain) => Chain::named(s@) == Some(chain),
                Err(message) => Chain::named(s@) is None && message@ == "unknown chain: "@ + s@,
            },
    {
        let name = s.to_owned();
        if name == "mainnet".to_owned() {
            Ok(Chain::Mainnet)
        } else if name == "testnet".to_owned() {
            Ok(Chain::Testnet)
        } else if name == "regtest".to_owned() {
            Ok(Chain::Regtest)
        } else {
            let mut message = "unknown chain: ".to_owned();
            message.append(s);
            Err(message)
        }
    }

    /// The address at which the node of this network on this machine serves
    /// the wallet `wallet`.
    pub fn rpc_url(self, wallet: &str) -> (url: String)
        ensures
            url@ == "http://localhost:"@ + decimal(self.spec_default_rpc_port() as nat)
                + "/wallet/"@ + wallet@,
    {
        let mut url = "http://localhost:".to_owned();
        let port = u64_to_decimal(self.default_rpc_port() as u64);
        url.append(port.as_str());
        url.append("/wallet/");
        url.append(wallet);
        url
    }

    /// Every network is read back from its own name.
    pub proof fn lemma_name_round_trip(self)
        ensures
            Chain::named(self.name()) == Some(self),
    {
        reveal_strlit("mainnet");
        reveal_strlit("testnet");
        reveal_strlit("regtest");
        assert("mainnet"@[0] == 'm');
        assert("testnet"@[0] == 't');
        assert("regtest"@[0] == 'r');
    }
}

} // verus!
