//! Identifies addresses by what Etherscan said of them.
use crate::abi::{abi_of, clone_contract};
use crate::address::Address;
use crate::identifier::metadata::{described, described_contract, law_last_item_describes};
use crate::identifier::metadata::{ContractMetadata, Metadata};
use crate::identifier::TraceIdentifier;
use crate::ordered_map::{lists, OrderedMap};
use ethers::abi::Abi;
use ethers::etherscan::errors::EtherscanError;
use ethers::etherscan::Client;
use ethers::types::Chain;
use std::borrow::Cow;
use vstd::prelude::*;

verus! {

/// `ethers::types::Chain`, the chains that have a name.
#[verifier::external_type_specification]
pub struct ExChain(ethers::types::Chain);

/// `ethers::etherscan::Client`, through which Etherscan is asked.
#[verifier::external_type_specification]
#[verifier::external_body]
pub struct ExClient(ethers::etherscan::Client);

/// `ethers::etherscan::errors::EtherscanError`, which says why a query failed.
#[verifier::external_type_specification]
#[verifier::external_body]
pub struct ExEtherscanError(ethers::etherscan::errors::EtherscanError);

/// A chain that runs on the developer's machine.
pub open spec fn is_local(chain: Chain) -> bool {
    chain is Dev || chain is AnvilHardhat
}

/// Whether there is a service that can be asked about the contracts of a chain. There is none for
/// the local networks, nor for the discontinued Morden and the development network of Moonbeam.
pub open spec fn has_explorer(chain: Chain) -> bool {
    !(is_local(chain) || chain is MoonbeamDev || chain is Morden)
}

/// Why a chain without a service is refused.
pub open spec fn refusal(chain: Chain) -> ClientError {
    if is_local(chain) {
        ClientError::LocalNetworksNotSupported
    } else {
        ClientError::ChainNotSupported(chain)
    }
}

/// Why a client could not be set up.
#[derive(Debug)]
pub enum ClientError {
    /// Local networks are not indexed by any service.
    LocalNetworksNotSupported,
    /// There is no service for this chain.
    ChainNotSupported(Chain),
    /// Something else was wrong.
    Other(EtherscanError),
}

/// Whether `client` was set up by `ethers::etherscan::Client::new` for these arguments. A client
/// also holds connections and what it has read from its environment, so that the arguments alone do
/// not say what it is.
pub uninterp spec fn is_client_for(client: Client, chain: Chain, api_key: Seq<char>) -> bool;

/// Calls `ethers::etherscan::Client::new`, which sets up a client without asking anything yet. It
/// refuses the local networks and the chains that it has no service for, and nothing else, and says
/// which of the two it was.
#[verifier::external_body]
fn new_client(chain: Chain, api_key: String) -> (client: Result<Client, ClientError>)
    ensures
        match client {
            Ok(client) => has_explorer(chain) && is_client_for(client, chain, api_key@),
            Err(error) => !has_explorer(chain) && error == refusal(chain),
        },
{
    Client::new(chain, api_key).map_err(|error| match error {
        EtherscanError::LocalNetworksNotSupported => ClientError::LocalNetworksNotSupported,
        EtherscanError::ChainNotSupported(chain) => ClientError::ChainNotSupported(chain),
        other => ClientError::Other(other),
    })
}

/// `Clone` of `ethers::etherscan::Client`, which is derived: the copy has the same endpoints and the
/// same key, and shares the connections.
pub assume_specification[ <ethers::etherscan::Client as Clone>::clone ](
    client: &ethers::etherscan::Client,
) -> (copy: ethers::etherscan::Client)
    ensures
        copy == *client,
;

/// Why an address could not be looked up.
#[derive(Debug)]
pub enum IdentifyError {
    /// Etherscan could not be asked, or did not answer the query.
    Query(EtherscanError),
    /// The ABI in the answer cannot be read.
    Abi(serde_json::Error),
}

/// What came of looking up an address: the contract that Etherscan's answer describes, nothing if it
/// describes none, or the error.
pub open spec fn identified_by(answer: Result<ContractMetadata, EtherscanError>) -> Result<
    Option<(String, Abi)>,
    IdentifyError,
> {
    match answer {
        Err(error) => Err(IdentifyError::Query(error)),
        Ok(metadata) => match described(metadata.items@) {
            Ok(contract) => Ok(contract),
            Err(error) => Err(IdentifyError::Abi(error)),
        },
    }
}

/// What happens in the course of a lookup.
pub enum LookupEvent {
    /// An address is to be looked up.
    Begin { address: Address },
    /// The query that was ordered has been answered.
    Answered { answer: Result<ContractMetadata, EtherscanError> },
}

/// What to do in the course of a lookup.
pub enum LookupAction {
    /// Query the source code of the contract at `address`.
    Query { address: Address },
    /// Return what came of the lookup.
    Return { contract: Result<Option<(String, Abi)>, IdentifyError> },
}

/// What is known of addresses after an event of a lookup, and what to do next.
pub open spec fn lookup_step(known: Map<Seq<u8>, (String, Abi)>, event: LookupEvent) -> (
    Map<Seq<u8>, (String, Abi)>,
    LookupAction,
) {
    match event {
        LookupEvent::Begin { address } => (known, LookupAction::Query { address }),
        LookupEvent::Answered { answer } => (
            known,
            LookupAction::Return { contract: identified_by(answer) },
        ),
    }
}

/// What is known of addresses after a lookup whose query is answered by `answer`, and what was to
/// be done in its course.
pub open spec fn lookup(
    known: Map<Seq<u8>, (String, Abi)>,
    address: Address,
    answer: Result<ContractMetadata, EtherscanError>,
) -> (Map<Seq<u8>, (String, Abi)>, Seq<LookupAction>) {
    let (between, first) = lookup_step(known, LookupEvent::Begin { address });
    let (after, second) = lookup_step(between, LookupEvent::Answered { answer });
    (after, seq![first, second])
}

/// The addresses that are queried.
pub open spec fn queried(actions: Seq<LookupAction>) -> Seq<Address>
    decreases actions.len(),
{
    if actions.len() == 0 {
        Seq::empty()
    } else {
        match actions.last() {
            LookupAction::Query { address } => queried(actions.drop_last()).push(address),
            _ => queried(actions.drop_last()),
        }
    }
}

/// One of the contracts that were looked up: its address, its label and its ABI.
pub type Identified = (Address, String, Abi);

/// What is known of addresses after one more lookup. A lookup without a result changes nothing.
pub open spec fn with_lookup(
    known: Map<Seq<u8>, (String, Abi)>,
    lookup: Option<Identified>,
) -> Map<Seq<u8>, (String, Abi)> {
    match lookup {
        Some((address, label, abi)) => known.insert(address@, (label, abi)),
        None => known,
    }
}

/// What is known of addresses after several lookups.
pub open spec fn with_lookups(
    known: Map<Seq<u8>, (String, Abi)>,
    lookups: Seq<Option<Identified>>,
) -> Map<Seq<u8>, (String, Abi)>
    decreases lookups.len(),
{
    if lookups.len() == 0 {
        known
    } else {
        with_lookup(with_lookups(known, lookups.drop_last()), lookups.last())
    }
}

/// A trace identifier that knows the contracts that were looked up on Etherscan beforehand.
#[derive(Debug)]
pub struct EtherscanIdentifier {
    /// The Etherscan client
    client: Client,
    /// The contracts that were looked up
    identified: OrderedMap<Address, (String, Abi)>,
}

/// An identifier is seen as what it knows of addresses.
impl View for EtherscanIdentifier {
    type V = Map<Seq<u8>, (String, Abi)>;

    closed spec fn view(&self) -> Map<Seq<u8>, (String, Abi)> {
        self.identified@
    }
}

impl EtherscanIdentifier {
    /// The client through which addresses are looked up.
    pub closed spec fn spec_client(&self) -> Client {
        self.client
    }

    /// An identifier that looks up contracts of `chain` and knows none yet. Fails if the chain has
    /// no service to ask.
    pub fn new(chain: Chain, etherscan_api_key: String) -> (identifier: Result<Self, ClientError>)
        ensures
            match identifier {
                Ok(identifier) => {
                    &&& has_explorer(chain)
                    &&& is_client_for(identifier.spec_client(), chain, etherscan_api_key@)
                    &&& identifier@ == Map::<Seq<u8>, (String, Abi)>::empty()
                },
                Err(error) => !has_explorer(chain) && error == refusal(chain),
            },
    {
        EtherscanIdentifier::with_client(new_client(chain, etherscan_api_key))
    }

    /// An identifier that looks up contracts through `client` and knows none yet, or the error if
    /// there is no client.
    pub fn with_client(client: Result<Client, ClientError>) -> (identifier: Result<
        Self,
        ClientError,
    >)
        ensures
            match client {
                Ok(client) => identifier matches Ok(identifier) && {
                    &&& identifier.spec_client() == client
                    &&& identifier@ == Map::<Seq<u8>, (String, Abi)>::empty()
                },
                Err(error) => identifier == Err::<Self, ClientError>(error),
            },
    {
        match client {
            Ok(client) => Ok(EtherscanIdentifier { client, identified: OrderedMap::new() }),
            Err(error) => Err(error),
        }
    }

    /// The client through which addresses are looked up.
    pub fn client(&self) -> (client: &Client)
        ensures
            *client == self.spec_client(),
    {
        &self.client
    }

    /// What came of looking up an address: the contract that Etherscan's answer describes, nothing
    /// if it describes none, or the error.
    pub fn identify(&self, answer: Result<ContractMetadata, EtherscanError>) -> (contract: Result<
        Option<(String, Abi)>,
        IdentifyError,
    >)
        ensures
            contract == identified_by(answer),
    {
        match answer {
            Err(error) => Err(IdentifyError::Query(error)),
            Ok(metadata) => match described_contract(metadata) {
                Ok(contract) => Ok(contract),
                Err(error) => Err(IdentifyError::Abi(error)),
            },
        }
    }

    /// Looks up an address: says what to do next. Whatever is known of the address, Etherscan is
    /// queried about it, once. What is known does not change.
    pub fn look_up(&self, event: LookupEvent) -> (action: LookupAction)
        ensures
            (self@, action) == lookup_step(self@, event),
    {
        match event {
            LookupEvent::Begin { address } => LookupAction::Query { address },
            LookupEvent::Answered { answer } => LookupAction::Return {
                contract: self.identify(answer),
            },
        }
    }

    /// Remembers the contracts that were looked up. Of several results for an address the last one
    /// counts.
    pub fn set_identified(&mut self, identified: Vec<Option<Identified>>)
        ensures
            final(self)@ == with_lookups(old(self)@, identified@),
            final(self).spec_client() == old(self).spec_client(),
    {
        let ghost before = self@;
        let ghost client = self.client;
        let ghost all = identified@;
        for item in lookups: identified
            invariant
                lookups.seq() == all,
                self.client == client,
                self@ == with_lookups(before, all.take(lookups.index() as int)),
        {
            proof {
                let taken = all.take(lookups.index() as int + 1);
                assert(taken.drop_last() =~= all.take(lookups.index() as int));
                assert(taken.last() == item);
            }
            if let Some((address, label, abi)) = item {
                self.identified.insert(address, (label, abi));
            }
        }
        assert(all.take(all.len() as int) =~= all);
    }
}

impl Clone for EtherscanIdentifier {
    /// A copy that knows the same contracts.
    fn clone(&self) -> (copy: Self)
        ensures
            copy@ == self@,
            copy.spec_client() == self.spec_client(),
    {
        let mut identified: OrderedMap<Address, (String, Abi)> = OrderedMap::new();
        let n: usize = self.identified.len();
        let ghost keys = self.identified.keys();
        let mut i: usize = 0;
        while i < n
            invariant
                i <= n,
                n == keys.len(),
                keys == self.identified.keys(),
                lists(keys, self.identified@),
                identified@ == self.identified@.restrict(keys.take(i as int).to_set()),
            decreases n - i,
        {
            let (address, contract) = self.identified.entry(i);
            identified.insert(*address, clone_contract(contract));
            proof {
                let taken = keys.take(i + 1);
                assert(taken =~= keys.take(i as int).push(keys[i as int]));
                assert forall|key: Seq<u8>| taken.contains(key) implies keys.take(
                    i as int,
                ).contains(key) || key == keys[i as int] by {
                    let j = taken.index_of(key);
                    if j < i {
                        assert(keys.take(i as int)[j] == key);
                    }
                }
                assert forall|key: Seq<u8>|
                    keys.take(i as int).contains(key) implies taken.contains(key) by {
                    let j = keys.take(i as int).index_of(key);
                    assert(taken[j] == key);
                }
                assert(taken[i as int] == keys[i as int]);
                assert(identified@ =~= self.identified@.restrict(taken.to_set()));
            }
            i = i + 1;
        }
        proof {
            assert(keys.take(n as int) =~= keys);
            assert(identified@ =~= self.identified@);
        }
        EtherscanIdentifier { client: self.client.clone(), identified }
    }
}

impl TraceIdentifier for EtherscanIdentifier {
    /// Finds the label and the ABI of an address that was looked up.
    fn identify_address<'a>(&'a self, addr: &Address, _code: Option<&Vec<u8>>) -> (identity: (
        Option<String>,
        Option<String>,
        Option<Cow<'a, Abi>>,
    ))
        ensures
            if self@.contains_key(addr@) {
                let (label, abi) = self@[addr@];
                identity == (None::<String>, Some(label), Some(Cow::<'a, Abi>::Borrowed(&abi)))
            } else {
                identity == (None::<String>, None::<String>, None::<Cow<'a, Abi>>)
            },
    {
        if let Some(contract) = self.identified.get(addr) {
            (None, Some(contract.0.clone()), Some(Cow::Borrowed(&contract.1)))
        } else {
            (None, None, None)
        }
    }
}

/// In the course of a lookup Etherscan is queried exactly once, about the address that is looked up,
/// even if that is known already; what comes of it is what the answer describes; and what is known
/// stays as it was.
pub proof fn law_lookup_asks_once(
    known: Map<Seq<u8>, (String, Abi)>,
    address: Address,
    answer: Result<ContractMetadata, EtherscanError>,
)
    ensures
        ({
            let (after, actions) = lookup(known, address, answer);
            &&& after == known
            &&& queried(actions) == seq![address]
            &&& actions.last() == (LookupAction::Return { contract: identified_by(answer) })
        }),
{
    reveal_with_fuel(queried, 3);
    let actions = lookup(known, address, answer).1;
    assert(actions.drop_last().drop_last().len() == 0);
    assert(actions.drop_last().last() == (LookupAction::Query { address }));
    assert(queried(actions) =~= seq![address]);
}

/// What is read back of an address after lookups were remembered is the last result for it among
/// them.
pub proof fn law_last_lookup_counts(
    known: Map<Seq<u8>, (String, Abi)>,
    lookups: Seq<Option<Identified>>,
    i: int,
    address: Seq<u8>,
)
    requires
        0 <= i < lookups.len(),
        is_about(lookups[i], address),
        forall|j: int| i < j < lookups.len() ==> !is_about(#[trigger] lookups[j], address),
    ensures
        with_lookups(known, lookups).contains_key(address),
        with_lookups(known, lookups)[address] == found(lookups[i]),
    decreases lookups.len(),
{
    if i < lookups.len() - 1 {
        let rest = lookups.drop_last();
        assert(!is_about(lookups[lookups.len() - 1], address));
        law_last_lookup_counts(known, rest, i, address);
    }
}

/// What is known of an address stays as it was if no lookup found anything there.
pub proof fn law_other_addresses_kept(
    known: Map<Seq<u8>, (String, Abi)>,
    lookups: Seq<Option<Identified>>,
    address: Seq<u8>,
)
    requires
        forall|i: int| 0 <= i < lookups.len() ==> !is_about(#[trigger] lookups[i], address),
    ensures
        with_lookups(known, lookups).contains_key(address) == known.contains_key(address),
        with_lookups(known, lookups)[address] == known[address],
    decreases lookups.len(),
{
    if lookups.len() > 0 {
        assert(!is_about(lookups[lookups.len() - 1], address));
        law_other_addresses_kept(known, lookups.drop_last(), address);
    }
}

/// The contract that a lookup found.
pub open spec fn found(lookup: Option<Identified>) -> (String, Abi)
    recommends
        lookup is Some,
{
    let (_, label, abi) = lookup.unwrap();
    (label, abi)
}

/// A lookup that found the contract at `address`.
pub open spec fn is_about(lookup: Option<Identified>, address: Seq<u8>) -> bool {
    lookup matches Some(identified) && identified.0@ == address
}

/// Remembering lookups in two turns is the same as remembering all of them at once.
pub proof fn law_lookups_accumulate(
    known: Map<Seq<u8>, (String, Abi)>,
    first: Seq<Option<Identified>>,
    second: Seq<Option<Identified>>,
)
    ensures
        with_lookups(with_lookups(known, first), second) == with_lookups(known, first + second),
    decreases second.len(),
{
    if second.len() == 0 {
        assert(first + second =~= first);
    } else {
        law_lookups_accumulate(known, first, second.drop_last());
        assert((first + second).drop_last() =~= first + second.drop_last());
    }
}

/// Four chains are refused and no others: the two that run on the developer's machine, as local
/// ones, and two more, by their name.
pub proof fn law_refused_chains(chain: Chain)
    ensures
        !has_explorer(chain) <==> (chain is Dev || chain is AnvilHardhat || chain is Morden
            || chain is MoonbeamDev),
        chain is Dev || chain is AnvilHardhat ==> refusal(chain)
            == ClientError::LocalNetworksNotSupported,
        chain is Morden || chain is MoonbeamDev ==> refusal(chain)
            == ClientError::ChainNotSupported(chain),
{
}

/// A query that failed is the error of the lookup. An answer without items finds nothing.
pub proof fn law_failed_query_is_the_error(error: EtherscanError, empty: ContractMetadata)
    requires
        empty.items@.len() == 0,
    ensures
        identified_by(Err(error)) == Err::<Option<(String, Abi)>, IdentifyError>(
            IdentifyError::Query(error),
        ),
        identified_by(Ok(empty)) == Ok::<Option<(String, Abi)>, IdentifyError>(None),
{
}

/// An answer with items finds what its last item says: the name of that item with the ABI that its
/// text says, or the error why the text says none.
pub proof fn law_last_item_is_identified(
    metadata: ContractMetadata,
    items: Seq<Metadata>,
    item: Metadata,
)
    requires
        metadata.items@ == items.push(item),
    ensures
        abi_of(item.abi@) matches Ok(abi) ==> identified_by(Ok(metadata)) == Ok::<
            Option<(String, Abi)>,
            IdentifyError,
        >(Some((item.contract_name, abi))),
        abi_of(item.abi@) matches Err(error) ==> identified_by(Ok(metadata)) == Err::<
            Option<(String, Abi)>,
            IdentifyError,
        >(IdentifyError::Abi(error)),
{
    law_last_item_describes(items, item);
}

/// A lookup begins with a query about the address, and ends when that is answered. Neither changes
/// what is known.
pub proof fn law_lookup_steps(
    known: Map<Seq<u8>, (String, Abi)>,
    address: Address,
    answer: Result<ContractMetadata, EtherscanError>,
)
    ensures
        lookup_step(known, LookupEvent::Begin { address }) == (
            known,
            LookupAction::Query { address },
        ),
        lookup_step(known, LookupEvent::Answered { answer }) == (
            known,
            LookupAction::Return { contract: identified_by(answer) },
        ),
{
}

/// The label and the ABI that were found last for an address are what is known of it, whatever was
/// known before and whatever was found for other addresses since.
pub proof fn law_found_contract_is_read_back(
    known: Map<Seq<u8>, (String, Abi)>,
    earlier: Seq<Option<Identified>>,
    address: Address,
    label: String,
    abi: Abi,
    later: Seq<Option<Identified>>,
)
    requires
        forall|j: int|
            0 <= j < later.len() ==> (#[trigger] later[j] matches Some((other, _, _)) ==> other@
                != address@),
    ensures
        ({
            let after = with_lookups(known, earlier.push(Some((address, label, abi))) + later);
            &&& after.contains_key(address@)
            &&& after[address@] == (label, abi)
        }),
    decreases later.len(),
{
    let all = earlier.push(Some((address, label, abi))) + later;
    if later.len() == 0 {
        assert(all =~= earlier.push(Some((address, label, abi))));
        assert(all.drop_last() =~= earlier);
    } else {
        let rest = later.drop_last();
        assert(all.drop_last() =~= earlier.push(Some((address, label, abi))) + rest);
        assert(all.last() == later[later.len() - 1]);
        assert forall|j: int| 0 <= j < rest.len() implies (#[trigger] rest[j] matches Some(
            (other, _, _),
        ) ==> other@ != address@) by {
            assert(rest[j] == later[j]);
        }
        law_found_contract_is_read_back(known, earlier, address, label, abi, rest);
    }
}

/// What is known of an address for which nothing was found is what was known before.
pub proof fn law_unfound_address_is_kept(
    known: Map<Seq<u8>, (String, Abi)>,
    lookups: Seq<Option<Identified>>,
    address: Seq<u8>,
)
    requires
        forall|j: int|
            0 <= j < lookups.len() ==> (#[trigger] lookups[j] matches Some((other, _, _)) ==> other@
                != address),
    ensures
        with_lookups(known, lookups).contains_key(address) == known.contains_key(address),
        with_lookups(known, lookups)[address] == known[address],
    decreases lookups.len(),
{
    if lookups.len() > 0 {
        let rest = lookups.drop_last();
        assert forall|j: int| 0 <= j < rest.len() implies (#[trigger] rest[j] matches Some(
            (other, _, _),
        ) ==> other@ != address) by {
            assert(rest[j] == lookups[j]);
        }
        assert(lookups[lookups.len() - 1] == lookups.last());
        law_unfound_address_is_kept(known, rest, address);
    }
}

} // verus!
