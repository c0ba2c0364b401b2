//! Trace identifiers.

/// A trace identifier that tries to identify addresses using Etherscan.
pub mod etherscan;
/// The bookkeeping behind a trace identifier that asks Etherscan while a trace is decoded.
pub mod handler;
/// What holds of the handler however it is driven.
pub mod laws;
/// A trace identifier that tries to identify addresses using local contracts.
pub mod local;
/// What Etherscan says of the source of a contract.
pub mod metadata;

pub use etherscan::EtherscanIdentifier;
pub use handler::EtherscanHandler;
pub use local::LocalTraceIdentifier;

use crate::address::Address;
use ethers::abi::Abi;
use std::borrow::Cow;
use vstd::prelude::*;

verus! {

/// Trace identifiers figure out what ABIs and labels belong to all the addresses of the trace.
pub trait TraceIdentifier {
    /// Attempts to identify an address in one or more call traces.
    ///
    /// The tuple is of the format `(contract, label, abi)`, where `contract` is intended to be of
    /// the format `"<artifact>:<contract>"`, e.g. `"Foo.json:Foo"`.
    ///
    /// What is found is up to the identifier.
    fn identify_address<'a>(
        &'a self,
        address: &Address,
        code: Option<&Vec<u8>>,
    ) -> (Option<String>, Option<String>, Option<Cow<'a, Abi>>);
}

} // verus!
