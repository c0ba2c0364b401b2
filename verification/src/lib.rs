//! Verified pieces of a toolkit for smart contracts.
//!
//! A call trace names contracts by their addresses only. A [`identifier::TraceIdentifier`] finds
//! out what stands behind an address: the name of the contract, a label for it, and its ABI.
//!
//! - [`identifier::local`] compares the code at an address with the contracts of the project;
//! - [`identifier::etherscan`] remembers what Etherscan said of addresses that were looked up
//!   beforehand;
//! - [`identifier::handler`] serves lookups as they come in: it answers from its cache what it can,
//!   and decides what to ask Etherscan and whom to tell the answer.
//!
//! [`abi`] reads the ABIs that these hand on, once [`abi_text`] has found nothing in their text on
//! which their reader would panic.
//!
//! [`build_args`] says what the arguments of a build change in the configuration of a project.
#![allow(unused_imports)]

pub mod abi;
pub mod abi_laws;
pub mod abi_text;
pub mod abi_written_laws;
pub mod address;
pub mod build_args;
pub mod identifier;
pub mod json;
pub mod json_laws;
pub mod order;
pub mod ordered_map;
pub mod reading;
pub mod reading_laws;
