use ethers::abi::Abi;
use ethers::etherscan::errors::EtherscanError;
use ethers::types::Chain;
use foundry::address::Address;
use foundry::identifier::etherscan::{
    ClientError, EtherscanIdentifier, IdentifyError, LookupAction, LookupEvent,
};
use foundry::identifier::metadata::{
    described_contract, fetched_contract, name_abi, ContractMetadata, Metadata,
};
use foundry::identifier::TraceIdentifier;
use std::borrow::Cow;

fn abi_json(function: &str) -> String {
    format!(
        r#"[{{"type":"function","name":"{}","inputs":[],"outputs":[],"stateMutability":"view"}}]"#,
        function
    )
}

fn abi(function: &str) -> Abi {
    serde_json::from_str(&abi_json(function)).unwrap()
}

fn item(name: &str) -> Metadata {
    Metadata { abi: abi_json(name), contract_name: name.to_string() }
}

fn unreadable(name: &str) -> Metadata {
    Metadata { abi: "Contract source code not verified".to_string(), contract_name: name.to_string() }
}

fn answer(items: Vec<Metadata>) -> ContractMetadata {
    ContractMetadata { items }
}

fn address(last: u8) -> Address {
    let mut bytes = [0u8; 20];
    bytes[19] = last;
    Address(bytes)
}

fn identifier() -> EtherscanIdentifier {
    EtherscanIdentifier::new(Chain::Mainnet, "key".to_string()).unwrap()
}

fn label_of(identifier: &EtherscanIdentifier, address: Address) -> Option<String> {
    let (contract, label, found) = identifier.identify_address(&address, None);
    assert_eq!(contract, None);
    assert!(!matches!(found, Some(Cow::Owned(_))));
    assert_eq!(label.as_ref().map(|name| abi(name)), found.map(|abi| abi.into_owned()));
    label
}

#[test]
fn local_networks_cannot_be_looked_up() {
    for chain in [Chain::Dev, Chain::AnvilHardhat] {
        let made = EtherscanIdentifier::new(chain, "key".to_string());
        assert!(matches!(made, Err(ClientError::LocalNetworksNotSupported)));
    }
}

#[test]
fn networks_without_a_service_cannot_be_looked_up() {
    for chain in [Chain::MoonbeamDev, Chain::Morden] {
        match EtherscanIdentifier::new(chain, "key".to_string()) {
            Err(ClientError::ChainNotSupported(refused)) => assert_eq!(refused, chain),
            _ => panic!("the chain is refused"),
        }
    }
}

#[test]
fn other_networks_can_be_looked_up() {
    for chain in [
        Chain::Mainnet,
        Chain::Ropsten,
        Chain::Rinkeby,
        Chain::Goerli,
        Chain::Kovan,
        Chain::XDai,
        Chain::Polygon,
        Chain::Fantom,
        Chain::FantomTestnet,
        Chain::PolygonMumbai,
        Chain::Avalanche,
        Chain::AvalancheFuji,
        Chain::Sepolia,
        Chain::Moonbeam,
        Chain::Moonbase,
        Chain::Moonriver,
        Chain::Optimism,
        Chain::OptimismKovan,
        Chain::Arbitrum,
        Chain::ArbitrumTestnet,
        Chain::Cronos,
        Chain::CronosTestnet,
        Chain::BinanceSmartChain,
        Chain::BinanceSmartChainTestnet,
        Chain::Poa,
        Chain::Sokol,
        Chain::Rsk,
        Chain::Oasis,
        Chain::Emerald,
        Chain::EmeraldTestnet,
        Chain::Evmos,
        Chain::EvmosTestnet,
    ] {
        assert!(EtherscanIdentifier::new(chain, "key".to_string()).is_ok());
    }
}

#[test]
fn client_is_that_of_the_chain() {
    assert_eq!(
        identifier().client().etherscan_url().as_str(),
        "https://etherscan.io/"
    );
    let polygon = EtherscanIdentifier::new(Chain::Polygon, "key".to_string()).unwrap();
    assert_eq!(polygon.client().etherscan_url().as_str(), "https://polygonscan.com/");
    assert!(format!("{:?}", polygon.client()).contains("api_key: \"key\""));
}

#[test]
fn missing_client_is_reported() {
    let made = EtherscanIdentifier::with_client(Err(ClientError::Other(EtherscanError::BalanceFailed)));
    assert!(matches!(made, Err(ClientError::Other(EtherscanError::BalanceFailed))));
}

#[test]
fn new_identifier_knows_nothing() {
    assert_eq!(label_of(&identifier(), address(1)), None);
}

#[test]
fn last_item_of_an_answer_describes_the_contract() {
    let found = described_contract(answer(vec![item("First"), item("Second")])).unwrap();
    assert_eq!(found, Some(("Second".to_string(), abi("Second"))));
}

#[test]
fn answer_without_items_describes_nothing() {
    assert_eq!(described_contract(answer(vec![])).unwrap(), None);
    assert_eq!(identifier().identify(Ok(answer(vec![]))).unwrap(), None);
}

#[test]
fn abi_that_cannot_be_read_is_an_error() {
    assert!(described_contract(answer(vec![item("First"), unreadable("Second")])).is_err());
    let found = identifier().identify(Ok(answer(vec![unreadable("Foo")])));
    assert!(matches!(found, Err(IdentifyError::Abi(_))));
}

#[test]
fn abi_with_a_type_that_must_not_be_read_is_an_error() {
    let broken = || {
        let abi = r#"[{"type":"function","name":"f","inputs":[{"name":"a","type":"]"}],"outputs":[]}]"#;
        answer(vec![Metadata { abi: abi.to_string(), contract_name: "Foo".to_string() }])
    };
    assert!(described_contract(broken()).is_err());
    let found = identifier().identify(Ok(broken()));
    assert!(matches!(found, Err(IdentifyError::Abi(_))));
    assert_eq!(fetched_contract::<u8>(Ok(broken())), None);
}

#[test]
fn abi_with_escapes_is_read() {
    let abi = r#"[{"type":"fallback"},{"type":"receive","x":{"type":"]"}}]"#;
    let item = || Metadata { abi: abi.to_string(), contract_name: "Foo".to_string() };
    let expected = Some(("Foo".to_string(), serde_json::from_str::<Abi>(abi).unwrap()));
    assert_eq!(identifier().identify(Ok(answer(vec![item()]))).unwrap(), expected);
    assert_eq!(fetched_contract::<u8>(Ok(answer(vec![item()]))), expected);
}

#[test]
fn failed_query_is_an_error() {
    let found = identifier().identify(Err(EtherscanError::RateLimitExceeded));
    assert!(matches!(found, Err(IdentifyError::Query(EtherscanError::RateLimitExceeded))));
}

#[test]
fn identify_finds_the_described_contract() {
    let found = identifier().identify(Ok(answer(vec![item("Foo")]))).unwrap();
    assert_eq!(found, Some(("Foo".to_string(), abi("Foo"))));
}

#[test]
fn name_is_put_to_an_abi() {
    let named: Result<_, u8> = name_abi("Foo".to_string(), Ok(abi("bar")));
    assert_eq!(named, Ok(Some(("Foo".to_string(), abi("bar")))));
    let failed: Result<_, u8> = name_abi("Foo".to_string(), Err(3));
    assert_eq!(failed, Err(3));
}

#[test]
fn fetch_passes_on_contracts_and_no_errors() {
    let fetch = |items: Vec<Metadata>| fetched_contract::<u8>(Ok(answer(items)));
    assert_eq!(fetch(vec![item("Foo")]), Some(("Foo".to_string(), abi("Foo"))));
    assert_eq!(fetch(vec![]), None);
    assert_eq!(fetch(vec![unreadable("Foo")]), None);
    assert_eq!(fetched_contract::<u8>(Err(1)), None);
}

#[test]
fn identified_contracts_are_read_back() {
    let mut identifier = identifier();
    identifier.set_identified(vec![
        Some((address(2), "Two".to_string(), abi("Two"))),
        None,
        Some((address(1), "One".to_string(), abi("One"))),
    ]);
    assert_eq!(label_of(&identifier, address(1)), Some("One".to_string()));
    assert_eq!(label_of(&identifier, address(2)), Some("Two".to_string()));
    assert_eq!(label_of(&identifier, address(3)), None);
}

#[test]
fn last_lookup_of_an_address_counts() {
    let mut identifier = identifier();
    identifier.set_identified(vec![
        Some((address(1), "Old".to_string(), abi("Old"))),
        Some((address(1), "New".to_string(), abi("New"))),
    ]);
    assert_eq!(label_of(&identifier, address(1)), Some("New".to_string()));
    identifier.set_identified(vec![Some((address(1), "Newest".to_string(), abi("Newest")))]);
    assert_eq!(label_of(&identifier, address(1)), Some("Newest".to_string()));
}

#[test]
fn lookups_accumulate() {
    let mut identifier = identifier();
    identifier.set_identified(vec![Some((address(1), "One".to_string(), abi("One")))]);
    identifier.set_identified(vec![None]);
    identifier.set_identified(vec![Some((address(2), "Two".to_string(), abi("Two")))]);
    assert_eq!(label_of(&identifier, address(1)), Some("One".to_string()));
    assert_eq!(label_of(&identifier, address(2)), Some("Two".to_string()));
}

#[test]
fn code_does_not_matter_to_etherscan() {
    let mut identifier = identifier();
    identifier.set_identified(vec![Some((address(1), "One".to_string(), abi("One")))]);
    let identity = identifier.identify_address(&address(1), Some(&vec![1, 2, 3]));
    assert_eq!(identity.1, Some("One".to_string()));
}

#[test]
fn clone_knows_the_same_contracts() {
    let mut identifier = identifier();
    identifier.set_identified(vec![
        Some((address(1), "One".to_string(), abi("One"))),
        Some((address(2), "Two".to_string(), abi("Two"))),
    ]);
    let copy = identifier.clone();
    identifier.set_identified(vec![Some((address(1), "Uno".to_string(), abi("Uno")))]);
    assert_eq!(label_of(&copy, address(1)), Some("One".to_string()));
    assert_eq!(label_of(&copy, address(2)), Some("Two".to_string()));
    assert_eq!(copy.client().etherscan_url(), identifier.client().etherscan_url());
}

#[test]
fn lookup_asks_once_even_of_a_known_address() {
    let mut identifier = identifier();
    identifier.set_identified(vec![Some((address(1), "One".to_string(), abi("One")))]);
    match identifier.look_up(LookupEvent::Begin { address: address(1) }) {
        LookupAction::Query { address: queried } => assert_eq!(queried.0, address(1).0),
        _ => panic!("a query is ordered"),
    }
    match identifier.look_up(LookupEvent::Answered { answer: Ok(answer(vec![item("Uno")])) }) {
        LookupAction::Return { contract } => {
            assert_eq!(contract.unwrap(), Some(("Uno".to_string(), abi("Uno"))))
        }
        _ => panic!("the lookup is over"),
    }
    assert_eq!(label_of(&identifier, address(1)), Some("One".to_string()));
    let failed = LookupEvent::Answered { answer: Err(EtherscanError::RateLimitExceeded) };
    assert!(matches!(
        identifier.look_up(failed),
        LookupAction::Return {
            contract: Err(IdentifyError::Query(EtherscanError::RateLimitExceeded))
        }
    ));
}
