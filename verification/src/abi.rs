//! Contract ABIs, which the library carries without looking inside.
use crate::abi_text::{find_flaw, flaw, lemma_repaired_is_shorter, repair, repaired};
use ethers::abi::Abi;
use vstd::prelude::*;

verus! {

/// `ethers::abi::Abi`, the interface of a contract.
#[verifier::external_type_specification]
#[verifier::external_body]
pub struct ExAbi(ethers::abi::Abi);

/// `serde_json::Error`, which says why a text is not the JSON of an ABI.
#[verifier::external_type_specification]
#[verifier::external_body]
pub struct ExJsonError(serde_json::Error);

/// What `serde_json::from_str` makes of a text that is read as an ABI.
pub uninterp spec fn abi_from_json(text: Seq<char>) -> Result<Abi, serde_json::Error>;

/// Calls `serde_json::from_str` for an `Abi`. What it returns depends on the text alone; the
/// contract gives it a name and claims nothing else of it.
///
/// It hands the names of types to `ethabi::param_type::Reader`, which panics on some of them, or
/// runs out of stack. A text may have no such name that the reader comes to.
#[verifier::external_body]
pub(crate) fn parse_abi(text: &str) -> (parsed: Result<Abi, serde_json::Error>)
    requires
        flaw(text@) is None,
    ensures
        parsed == abi_from_json(text@),
{
    serde_json::from_str(text)
}

/// What a text says of an ABI, or why it says nothing of the kind. If the reader would come to the
/// name of a type that is fatal to it, a number is read in the place of that name, which is refused
/// as any other value that is not the name of a type. Whatever stops the reader before that name
/// stops it there as well.
pub open spec fn abi_of(text: Seq<char>) -> Result<Abi, serde_json::Error>
    decreases text.len(),
{
    match flaw(text) {
        None => abi_from_json(text),
        Some(quote) => {
            proof {
                lemma_repaired_is_shorter(text);
            }
            abi_of(repaired(text, quote))
        },
    }
}

/// Reads the text of an ABI.
pub fn read_abi(text: &str) -> (abi: Result<Abi, serde_json::Error>)
    ensures
        abi == abi_of(text@),
    decreases text@.len(),
{
    match find_flaw(text) {
        None => parse_abi(text),
        Some(quote) => {
            proof {
                lemma_repaired_is_shorter(text@);
            }
            read_abi(repair(text, quote).as_str())
        },
    }
}

/// `Clone` of `ethers::abi::Abi`, which is derived: the copy has the same constructor, functions,
/// events and errors.
pub assume_specification[ <ethers::abi::Contract as Clone>::clone ](
    abi: &ethers::abi::Contract,
) -> (copy: ethers::abi::Contract)
    ensures
        copy == *abi,
;

/// A copy of a label and an ABI.
pub fn clone_contract(contract: &(String, Abi)) -> (copy: (String, Abi))
    ensures
        copy == *contract,
{
    (contract.0.clone(), contract.1.clone())
}

} // verus!
