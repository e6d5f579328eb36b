//! A simulation of how messages spread through a gossip network: nodes, their push
//! active sets, the spread of one message, and statistics over many rounds.

use vstd::prelude::*;
use solana_sdk::pubkey::ParsePubkeyError;
use vstd::string::StringSliceAdditionalSpecFns;

pub mod pubkey;
pub mod sort;
pub mod key_map;
pub mod push_active_set;
pub mod gossip_stats;
pub mod received_cache;
pub mod gossip;
pub mod influx_db;
pub mod accounts;
pub mod simulation;

verus! {

/// The JSON RPC endpoint of mainnet beta.
pub const API_MAINNET_BETA: &'static str = "https://api.mainnet-beta.solana.com";

/// The JSON RPC endpoint of testnet.
pub const API_TESTNET: &'static str = "https://api.testnet.solana.com";

/// The internal metrics database.
pub const INFLUX_INTERNAL_METRICS: &'static str = "https://internal-metrics.solana.com:8086";

/// A metrics database on this machine.
pub const INFLUX_LOCALHOST: &'static str = "http://localhost:8086";

/// The outside error of a key that does not parse.
#[verifier::external_type_specification]
#[verifier::external_body]
pub struct ExParsePubkeyError(ParsePubkeyError);

/// What can go wrong while building a cluster.
#[derive(Debug)]
pub enum Error {
    /// A node key is not a valid base58 key.
    ParsePubkeyError(ParsePubkeyError),
    /// A lock was poisoned.
    TryLockErrorPoisoned,
}

/// Whether two strings hold the same characters.
pub fn str_eq(a: &str, b: &str) -> (r: bool)
    ensures
        r == (a@ == b@),
{
    let x = a.as_bytes();
    let y = b.as_bytes();
    proof {
        broadcast use vstd::utf8::encode_utf8_decode_utf8;
    }
    if x.len() != y.len() {
        return false;
    }
    let mut i: usize = 0;
    while i < x.len()
        invariant
            x@ == a.spec_bytes(),
            y@ == b.spec_bytes(),
            x@.len() == y@.len(),
            0 <= i <= x@.len(),
            forall|j: int| 0 <= j < i ==> x@[j] == y@[j],
        decreases x@.len() - i,
    {
        if x[i] != y[i] {
            return false;
        }
        i = i + 1;
    }
    proof {
        assert(x@ =~= y@);
        assert(decode_utf8_of(a) == decode_utf8_of(b));
    }
    true
}

/// The characters that a string's bytes decode to.
spec fn decode_utf8_of(s: &str) -> Seq<char> {
    vstd::utf8::decode_utf8(s.spec_bytes())
}

/// The JSON RPC endpoint that a name stands for: "m" or "mainnet-beta" for mainnet
/// beta, "t" or "testnet" for testnet; any other name is the endpoint itself.
pub fn get_json_rpc_url(json_rpc_url: &str) -> (r: &str)
    ensures
        r@ == (if json_rpc_url@ == "m"@ || json_rpc_url@ == "mainnet-beta"@ {
            API_MAINNET_BETA@
        } else if json_rpc_url@ == "t"@ || json_rpc_url@ == "testnet"@ {
            API_TESTNET@
        } else {
            json_rpc_url@
        }),
{
    if str_eq(json_rpc_url, "m") || str_eq(json_rpc_url, "mainnet-beta") {
        API_MAINNET_BETA
    } else if str_eq(json_rpc_url, "t") || str_eq(json_rpc_url, "testnet") {
        API_TESTNET
    } else {
        json_rpc_url
    }
}

/// The metrics database that a name stands for: "i" or "internal-metrics" for the
/// internal one, "l" or "localhost" for one on this machine; any other name is the
/// endpoint itself.
pub fn get_influx_url(json_rpc_url: &str) -> (r: &str)
    ensures
        r@ == (if json_rpc_url@ == "i"@ || json_rpc_url@ == "internal-metrics"@ {
            INFLUX_INTERNAL_METRICS@
        } else if json_rpc_url@ == "l"@ || json_rpc_url@ == "localhost"@ {
            INFLUX_LOCALHOST@
        } else {
            json_rpc_url@
        }),
{
    if str_eq(json_rpc_url, "i") || str_eq(json_rpc_url, "internal-metrics") {
        INFLUX_INTERNAL_METRICS
    } else if str_eq(json_rpc_url, "l") || str_eq(json_rpc_url, "localhost") {
        INFLUX_LOCALHOST
    } else {
        json_rpc_url
    }
}

} // verus!
