//! Reads a contract out of the answer to a source code query.
use crate::abi::{abi_from_json, abi_of, read_abi};
use crate::abi_laws::law_plain_text_is_read_as_it_stands;
use ethers::abi::Abi;
use vstd::prelude::*;

verus! {

/// What Etherscan says of the source of one contract, as far as an identifier needs it.
pub struct Metadata {
    /// The JSON of the ABI.
    pub abi: String,
    pub contract_name: String,
}

/// The answer to a source code query.
pub struct ContractMetadata {
    pub items: Vec<Metadata>,
}

/// The contract of a name and of what came of reading its ABI.
pub open spec fn with_abi<E>(contract_name: String, abi: Result<Abi, E>) -> Result<
    Option<(String, Abi)>,
    E,
> {
    match abi {
        Ok(abi) => Ok(Some((contract_name, abi))),
        Err(error) => Err(error),
    }
}

/// The contract that an answer describes: that of its last item, if it has any.
pub open spec fn described(items: Seq<Metadata>) -> Result<
    Option<(String, Abi)>,
    serde_json::Error,
> {
    if items.len() == 0 {
        Ok(None)
    } else {
        with_abi(items.last().contract_name, abi_of(items.last().abi@))
    }
}

/// What is passed on of a lookup whose failures do not matter.
pub open spec fn passed_on<E>(contract: Result<Option<(String, Abi)>, E>) -> Option<(String, Abi)> {
    match contract {
        Ok(contract) => contract,
        Err(_) => None,
    }
}

/// Puts a name to an ABI that was read, or reports why it could not be read.
pub fn name_abi<E>(contract_name: String, abi: Result<Abi, E>) -> (contract: Result<
    Option<(String, Abi)>,
    E,
>)
    ensures
        contract == with_abi(contract_name, abi),
{
    match abi {
        Ok(abi) => Ok(Some((contract_name, abi))),
        Err(error) => Err(error),
    }
}

/// The contract that an answer describes: the last of its items gives the name and the ABI. An
/// answer without items describes none.
pub fn described_contract(metadata: ContractMetadata) -> (contract: Result<
    Option<(String, Abi)>,
    serde_json::Error,
>)
    ensures
        contract == described(metadata.items@),
{
    let mut items = metadata.items;
    match items.pop() {
        Some(item) => name_abi(item.contract_name, read_abi(item.abi.as_str())),
        None => Ok(None),
    }
}

/// What came of a source code query: the contract that was described, or nothing if the query
/// failed, described no contract, or gave an ABI that cannot be read.
pub fn fetched_contract<E>(metadata: Result<ContractMetadata, E>) -> (contract: Option<
    (String, Abi),
>)
    ensures
        contract == match metadata {
            Ok(metadata) => passed_on(described(metadata.items@)),
            Err(_) => None,
        },
{
    match metadata {
        Ok(metadata) => match described_contract(metadata) {
            Ok(contract) => contract,
            Err(_) => None,
        },
        Err(_) => None,
    }
}

/// An answer without items describes no contract. Otherwise its last item does: the contract has the
/// name of that item and the ABI that its text says, or there is the error why the text says none.
/// The other items do not matter.
pub proof fn law_last_item_describes(items: Seq<Metadata>, item: Metadata)
    ensures
        described(Seq::empty()) == Ok::<Option<(String, Abi)>, serde_json::Error>(None),
        abi_of(item.abi@) matches Ok(abi) ==> described(items.push(item)) == Ok::<
            Option<(String, Abi)>,
            serde_json::Error,
        >(Some((item.contract_name, abi))),
        abi_of(item.abi@) matches Err(error) ==> described(items.push(item)) == Err::<
            Option<(String, Abi)>,
            serde_json::Error,
        >(error),
{
    assert(items.push(item).last() == item);
}

/// A contract whose ABI is read from a text without escapes and without a bracket or a parenthesis
/// before a quote is described, and passed on, with its name and with what `serde_json` makes of
/// the text.
pub proof fn law_readable_contract_is_described(items: Seq<Metadata>, item: Metadata, abi: Abi)
    requires
        forall|i: int| 0 <= i < item.abi@.len() ==> #[trigger] item.abi@[i] != '\\',
        forall|i: int|
            0 < i < item.abi@.len() && #[trigger] item.abi@[i] == '"' ==> item.abi@[i - 1] != ']'
                && item.abi@[i - 1] != ')',
        abi_from_json(item.abi@) == Ok::<Abi, serde_json::Error>(abi),
    ensures
        described(items.push(item)) == Ok::<Option<(String, Abi)>, serde_json::Error>(
            Some((item.contract_name, abi)),
        ),
        passed_on(described(items.push(item))) == Some((item.contract_name, abi)),
{
    law_plain_text_is_read_as_it_stands(item.abi@);
    law_last_item_describes(items, item);
}

/// What was found is passed on as it is, and errors are passed on as nothing.
pub proof fn law_passed_on<E>(contract: Option<(String, Abi)>, error: E)
    ensures
        passed_on(Ok::<Option<(String, Abi)>, E>(contract)) == contract,
        passed_on(Err::<Option<(String, Abi)>, E>(error)) is None,
{
}

/// A name is put to an ABI that was read, and nothing is put to an error.
pub proof fn law_name_is_put_to_an_abi<E>(contract_name: String, abi: Abi, error: E)
    ensures
        with_abi(contract_name, Ok::<Abi, E>(abi)) == Ok::<Option<(String, Abi)>, E>(
            Some((contract_name, abi)),
        ),
        with_abi(contract_name, Err::<Abi, E>(error)) == Err::<Option<(String, Abi)>, E>(error),
{
}

} // verus!
