use ethers::abi::Abi;
use foundry::address::Address;
use foundry::identifier::local::{
    artifact_file, diff_score, DiffScore, KnownContract, LocalTraceIdentifier,
};
use foundry::identifier::TraceIdentifier;
use std::borrow::Cow;

fn abi(function: &str) -> Abi {
    let json = format!(
        r#"[{{"type":"function","name":"{}","inputs":[],"outputs":[],"stateMutability":"view"}}]"#,
        function
    );
    serde_json::from_str(&json).unwrap()
}

fn known(name: &str, runtime_code: Vec<u8>) -> KnownContract {
    KnownContract {
        artifact: artifact_file(name),
        name: name.to_string(),
        abi: abi(name),
        runtime_code,
    }
}

fn anywhere() -> Address {
    Address([7; 20])
}

fn name_of(identifier: &LocalTraceIdentifier, code: Vec<u8>) -> Option<String> {
    let (contract, label, found) = identifier.identify_address(&anywhere(), Some(&code));
    assert_eq!(contract, label.as_ref().map(|name| format!("{}.json:{}", name, name)));
    assert_eq!(label.as_ref().map(|name| abi(name)), found.map(|abi| abi.into_owned()));
    label
}

#[test]
fn score_counts_the_bytes_that_differ() {
    assert_eq!(diff_score(&[1, 2, 3, 4], &[1, 0, 3, 0]), DiffScore { diff_chars: 2, cutoff_len: 4 });
    assert_eq!(diff_score(&[1, 2], &[1, 2, 3, 4]), DiffScore { diff_chars: 0, cutoff_len: 2 });
    assert_eq!(diff_score(&[1, 2, 3, 4], &[9]), DiffScore { diff_chars: 1, cutoff_len: 1 });
}

#[test]
fn score_of_an_empty_code_is_one() {
    assert_eq!(diff_score(&[], &[1, 2]), DiffScore { diff_chars: 1, cutoff_len: 1 });
    assert_eq!(diff_score(&[1, 2], &[]), DiffScore { diff_chars: 1, cutoff_len: 1 });
    assert_eq!(diff_score(&[], &[]), DiffScore { diff_chars: 1, cutoff_len: 1 });
}

#[test]
fn score_is_symmetric() {
    let (a, b) = (vec![1u8, 2, 3], vec![1u8, 5, 3, 9]);
    assert_eq!(diff_score(&a, &b), diff_score(&b, &a));
}

#[test]
fn close_means_less_than_a_tenth() {
    assert!(DiffScore { diff_chars: 0, cutoff_len: 1 }.is_close());
    assert!(DiffScore { diff_chars: 1, cutoff_len: 11 }.is_close());
    assert!(!DiffScore { diff_chars: 1, cutoff_len: 10 }.is_close());
    assert!(!DiffScore { diff_chars: 1, cutoff_len: 1 }.is_close());
    assert!(!DiffScore { diff_chars: usize::MAX, cutoff_len: usize::MAX }.is_close());
}

#[test]
fn close_agrees_with_the_floating_point_score() {
    for cutoff_len in 1..400usize {
        for diff_chars in 0..=cutoff_len {
            let score = DiffScore { diff_chars, cutoff_len };
            assert_eq!(score.is_close(), (diff_chars as f64 / cutoff_len as f64) < 0.1);
        }
    }
}

#[test]
fn known_code_is_identified() {
    let identifier =
        LocalTraceIdentifier::new(&[known("Foo", vec![1; 20]), known("Bar", vec![2; 20])]);
    assert_eq!(name_of(&identifier, vec![1; 20]), Some("Foo".to_string()));
    assert_eq!(name_of(&identifier, vec![2; 20]), Some("Bar".to_string()));
    assert_eq!(name_of(&identifier, vec![3; 20]), None);
}

#[test]
fn contract_is_told_by_its_artifact_and_its_name() {
    let contract = KnownContract {
        artifact: "Token.json".to_string(),
        name: "Vault".to_string(),
        abi: Abi::default(),
        runtime_code: vec![1, 2, 3],
    };
    let identifier = LocalTraceIdentifier::new(&[contract]);
    let (contract, label, abi) = identifier.identify_address(&anywhere(), Some(&vec![1, 2, 3]));
    assert_eq!(contract, Some("Token.json:Vault".to_string()));
    assert_eq!(label, Some("Vault".to_string()));
    assert_eq!(abi.map(|abi| abi.into_owned()), Some(Abi::default()));
}

#[test]
fn identified_abi_is_borrowed() {
    let identifier = LocalTraceIdentifier::new(&[known("Foo", vec![1; 20])]);
    let identity = identifier.identify_address(&anywhere(), Some(&vec![1; 20]));
    assert!(matches!(identity.2, Some(Cow::Borrowed(_))));
}

#[test]
fn immutables_do_not_keep_a_contract_from_being_identified() {
    let identifier = LocalTraceIdentifier::new(&[known("Foo", vec![1; 40])]);
    let mut deployed = vec![1u8; 40];
    deployed[10] = 200;
    deployed[11] = 201;
    deployed[12] = 202;
    assert_eq!(name_of(&identifier, deployed.clone()), Some("Foo".to_string()));
    deployed[13] = 203;
    assert_eq!(name_of(&identifier, deployed), None);
}

#[test]
fn small_contract_that_is_all_immutables_is_not_identified() {
    let identifier = LocalTraceIdentifier::new(&[known("Foo", vec![0; 8])]);
    assert_eq!(name_of(&identifier, vec![9; 8]), None);
}

#[test]
fn longer_code_with_a_known_start_is_identified() {
    let identifier = LocalTraceIdentifier::new(&[known("Foo", vec![1, 2, 3])]);
    assert_eq!(name_of(&identifier, vec![1, 2, 3, 4, 5, 6]), Some("Foo".to_string()));
    assert_eq!(name_of(&identifier, vec![1]), Some("Foo".to_string()));
}

#[test]
fn nothing_is_identified_without_code() {
    let identifier = LocalTraceIdentifier::new(&[known("Foo", vec![1; 20]), known("E", vec![])]);
    let (contract, label, abi) = identifier.identify_address(&anywhere(), None);
    assert_eq!((contract, label), (None, None));
    assert!(abi.is_none());
    assert_eq!(name_of(&identifier, vec![]), None);
}

#[test]
fn first_matching_code_in_order_is_identified() {
    let mut near = vec![1u8; 40];
    near[39] = 0;
    // Both codes match both contracts; the code that ends in zero comes first.
    let identifier =
        LocalTraceIdentifier::new(&[known("Ones", vec![1; 40]), known("Near", near.clone())]);
    assert_eq!(name_of(&identifier, vec![1; 40]), Some("Near".to_string()));
    assert_eq!(name_of(&identifier, near), Some("Near".to_string()));
}

#[test]
fn last_contract_with_a_code_counts() {
    let identifier =
        LocalTraceIdentifier::new(&[known("Old", vec![1; 20]), known("New", vec![1; 20])]);
    assert_eq!(name_of(&identifier, vec![1; 20]), Some("New".to_string()));
}

#[test]
fn address_does_not_matter() {
    let identifier = LocalTraceIdentifier::new(&[known("Foo", vec![1; 20])]);
    let code = vec![1u8; 20];
    let here = identifier.identify_address(&Address([0; 20]), Some(&code));
    let there = identifier.identify_address(&Address([255; 20]), Some(&code));
    assert_eq!(here.0, there.0);
    assert_eq!(here.0, Some("Foo.json:Foo".to_string()));
}
