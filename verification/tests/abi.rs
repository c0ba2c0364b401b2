use ethers::abi::{Abi, ParamType};
use foundry::abi::{clone_contract, read_abi};
use foundry::abi_text::{find_flaw, repair};
use foundry::reading::{read_name, Reading};

/// A parameter of a type, whose name is given as it is written in JSON.
fn param(name: &str) -> String {
    format!(r#"{{"name":"a","type":"{}","components":[]}}"#, name)
}

fn function(inputs: &str) -> String {
    format!(r#"{{"type":"function","name":"f","inputs":[{}],"outputs":[]}}"#, inputs)
}

/// The ABI of one function that takes one argument of a type.
fn taking(name: &str) -> String {
    format!("[{}]", function(&param(name)))
}

fn parsed(text: &str) -> Abi {
    serde_json::from_str(text).unwrap()
}

/// Reads a text that is read as it stands.
fn read(text: &str) -> Abi {
    assert_eq!(find_flaw(text), None, "{}", text);
    let abi = read_abi(text).unwrap();
    assert_eq!(abi, parsed(text));
    abi
}

/// Checks that a text is an error as it stands, with the error that it deserves.
fn is_refused(text: &str) {
    assert_eq!(find_flaw(text), None, "{}", text);
    let error = serde_json::from_str::<Abi>(text).unwrap_err();
    assert_eq!(read_abi(text).unwrap_err().to_string(), error.to_string());
}

/// Checks that a text has a type that must not be read, and is an error on that account.
fn is_flawed(text: &str) {
    assert!(find_flaw(text).is_some(), "{}", text);
    let error = read_abi(text).unwrap_err().to_string();
    assert!(error.contains("integer `0`"), "{}", error);
}

fn outcome(name: &str, room: usize) -> Reading {
    let codes: Vec<u32> = name.chars().map(|c| c as u32).collect();
    read_name(&codes, room)
}

fn type_read(abi: &Abi) -> &ParamType {
    &abi.functions["f"][0].inputs[0].kind
}

#[test]
fn abi_is_read_from_its_text() {
    assert_eq!(type_read(&read(&taking("uint256"))), &ParamType::Uint(256));
    assert_eq!(
        type_read(&read(&taking("bytes32[4][]"))),
        &ParamType::Array(Box::new(ParamType::FixedArray(
            Box::new(ParamType::FixedBytes(32)),
            4
        )))
    );
    assert_eq!(
        type_read(&read(&taking("(address,bool)[]"))),
        &ParamType::Array(Box::new(ParamType::Tuple(vec![ParamType::Address, ParamType::Bool])))
    );
    for name in ["uint[+3]", "(address,(uint8[2],bool)[])[3][]", "enum Token.Kind", ""] {
        read(&taking(name));
    }
}

#[test]
fn tuples_are_read_with_their_components() {
    read(
        r#"[{"type":"event","name":"E","anonymous":false,"inputs":[
        {"name":"a","type" : "tuple[][2]","indexed":false,"components":[
            {"name":"b","type":"bytes[]"},{"name":"c","type":"(bool[2])","components":[]}]}]}]"#,
    );
}

#[test]
fn text_that_is_no_abi_is_an_error() {
    for text in ["", "{}", "[1]", "Contract source code not verified", r#"[{"type":"func"#] {
        is_refused(text);
    }
}

#[test]
fn name_that_is_refused_is_an_error() {
    for name in ["uint]", "uint[]]", "uint[a]", "a)", "intx", "bytes[9,]", "(uint8,intx)", "x]"] {
        assert_eq!(outcome(name, 9), Reading::Refused, "{}", name);
        is_refused(&taking(name));
    }
}

#[test]
fn closing_bracket_that_was_not_opened_is_a_flaw() {
    for name in ["]", "5]", "+5]", "(])", "(uint,1])", "((]))", "(])[2]", "(bool,(7])[])"] {
        assert_eq!(outcome(name, 9), Reading::Fatal, "{}", name);
        is_flawed(&taking(name));
    }
}

#[test]
fn cut_through_a_wide_character_is_a_flaw() {
    for name in ["é[]", "é[2]", "(é)", "(uint8,é)", "(é,)", "(漢漢)"] {
        assert_eq!(outcome(name, 9), Reading::Fatal, "{}", name);
        is_flawed(&taking(name));
    }
}

#[test]
fn wide_characters_are_no_flaw_where_nothing_is_cut_through() {
    for name in ["é", "éé[]", "(éé)", "漢", "é]é", "(uint8,é)[]"] {
        assert_eq!(outcome(name, 9), Reading::Read, "{}", name);
        read(&taking(name));
    }
}

#[test]
fn bracket_that_nobody_takes_apart_is_no_flaw() {
    for name in ["a]b", "(a]b)", "(a]b,bool)[]", "][", "(]a)"] {
        read(&taking(name));
    }
}

#[test]
fn escapes_are_resolved() {
    assert_eq!(type_read(&read(&taking(r"uint\u0038"))), &ParamType::Uint(8));
    assert_eq!(
        type_read(&read(&taking(r"\u0062ool\u005b\u005D"))),
        &ParamType::Array(Box::new(ParamType::Bool))
    );
    read(&taking(r"\\[]"));
    read(&taking(r#"\""#));
    read(&taking(r"\b\f\n\r\t\/"));
    read(&taking(r"\ud83d\ude00"));
    assert!(read(r#"[{"type":"\u0066allback"}]"#).fallback);
    is_flawed(&taking(r"\u005d"));
    is_flawed(&taking(r"\u00e9[]"));
    read(&taking(r"\u00e9\u00e9[]"));
    is_flawed(&taking(r"\ud83d\ude00[]"));
    is_refused(&taking(r"\ud83d"));
    is_refused(&taking(r"\x"));
}

#[test]
fn keys_with_escapes_are_keys() {
    let text = r#"[{"t\u0079pe":"function","name":"f","\u0069nputs":[{"name":"a","typ\u0065":"]"}]}]"#;
    is_flawed(text);
    is_flawed(&text.replace(":\"]\"", " \t\r\n:\n \"]\""));
}

#[test]
fn tag_may_come_last() {
    is_flawed(r#"[{"name":"f","inputs":[{"name":"a","type":"]"}],"outputs":[],"type":"function"}]"#);
    read(r#"[{"name":"f","inputs":[{"name":"a","type":"]"}],"outputs":[],"type":"receive"}]"#);
}

#[test]
fn operations_may_be_arrays() {
    let text = r#"[["function","f",[{"name":"a","type":"bool"}],[],null,"view"],["fallback"]]"#;
    read(text);
    is_flawed(&text.replace("bool", "]"));
    is_refused(r#"[["fallback",[{"type":"]"}]]]"#);
}

#[test]
fn all_lists_of_parameters_are_looked_at() {
    let bad = r#"[{"name":"a","type":"]"}]"#;
    is_flawed(&format!(r#"[{{"type":"constructor","inputs":{}}}]"#, bad));
    is_flawed(&format!(r#"[{{"type":"event","name":"E","anonymous":true,"inputs":{}}}]"#, bad));
    is_flawed(&format!(r#"[{{"type":"error","name":"E","inputs":{}}}]"#, bad));
    is_flawed(&format!(r#"[{{"type":"function","name":"f","inputs":[],"outputs":{}}}]"#, bad));
    is_flawed(&format!(
        r#"[{{"type":"error","name":"E","inputs":[{{"name":"t","components":{},"type":"tuple"}}]}}]"#,
        bad
    ));
}

#[test]
fn values_that_hold_no_types_are_not_looked_at() {
    read(r#"[{"type":"fallback","x":{"type":"]"}}]"#);
    read(r#"[{"type":"constructor","inputs":[],"outputs":[{"type":"]"}]}]"#);
    read(r#"[{"type":"function","name":"]","inputs":[],"outputs":[],"devdoc":{"inputs":[{"type":"]"}]}}]"#);
    read(
        r#"[{"type":"function","name":"type","inputs":[
        {"name":"é[]","internalType":"\"type\":]","type":"bool","x":[{"type":"]"}]}],"outputs":[]}]"#,
    );
}

#[test]
fn first_name_of_a_repeated_key_is_read() {
    is_flawed(r#"[{"type":"function","name":"f","inputs":[{"name":"a","type":"]","type":"bool"}]}]"#);
    let text = r#"[{"type":"function","name":"f","inputs":[{"name":"a","type":"intx","type":"]"}]}]"#;
    is_refused(text);
}

#[test]
fn nothing_is_read_behind_a_refusal() {
    is_refused(&format!("[{}]", function(&format!("{},{}", param("intx"), param("]")))));
    is_refused(&format!("[{},{}]", function(&param("intx")), function(&param("]"))));
    is_refused(&format!("[{},{}]", function(r#"{"name":"a","type":7}"#), function(&param("]"))));
}

#[test]
fn earlier_errors_come_first() {
    for text in [
        format!("[1,{}]", function(&param("]"))),
        format!("[{},", function(&param("bool"))) + &taking("]"),
        r#"[{"type":"function","name":1,"inputs":[{"name":"a","type":"]"}]}]"#.to_string(),
    ] {
        let error = read_abi(&text).unwrap_err().to_string();
        assert!(!error.contains("integer `0`"), "{}", error);
    }
}

#[test]
fn names_are_read_before_the_text_goes_wrong() {
    let text = taking("]");
    is_flawed(&text[..text.len() - 1]);
    is_flawed(&format!("{} \"", text));
}

#[test]
fn repair_puts_a_number_in_the_place_of_a_string() {
    let text = r#"["é", "a\"]" , 1]"#;
    assert_eq!(repair(text, 6), r#"["é", 0 , 1]"#);
    let text = taking("]");
    let repaired = repair(&text, find_flaw(&text).unwrap());
    assert_eq!(repaired, text.replace("\"]\"", "0"));
    assert_eq!(find_flaw(&repaired), None);
}

#[test]
fn numbers_must_fit() {
    read(&taking("uint[18446744073709551615]"));
    is_refused(&taking("uint[18446744073709551616]"));
    read(&taking("uint[0000000000000000000000000001]"));
    is_refused(&taking("uint[+]"));
    is_refused(&taking("uint[++1]"));
    is_refused(&taking("uint[-1]"));
}

#[test]
fn brackets_are_limited_by_the_stack() {
    read(&taking(&format!("uint{}", "[]".repeat(129))));
    read(&taking(&format!("uint{}", "[]".repeat(512))));
    is_flawed(&taking(&format!("uint{}", "[]".repeat(513))));
    // Brackets that are not taken apart do not count.
    read(&taking(&format!("uint{}x", "[]".repeat(5000)).replace("uint", "enum")));
}

fn composed(names: &[String]) -> String {
    let mut inner = r#"{"name":"a","type":"bool"}"#.to_string();
    for name in names {
        inner = format!(r#"{{"name":"a","type":"{}","components":[{}]}}"#, name, inner);
    }
    format!(r#"[{{"type":"constructor","inputs":[{}]}}]"#, inner)
}

#[test]
fn deepest_texts_are_read() {
    let level = format!("tuple{}", "[1]".repeat(8));
    for names in [
        vec!["tuple".to_string(); 60],
        vec![level; 60],
        [vec![format!("tuple{}", "[]".repeat(512))], vec!["tuple".to_string(); 59]].concat(),
    ] {
        let text = composed(&names);
        let abi = read(&text);
        let copy = clone_contract(&("Deep".to_string(), abi));
        assert_eq!(copy.0, "Deep");
        assert!(copy.1 == parsed(&text));
    }
}

#[test]
fn brackets_of_composed_types_are_counted_together() {
    let half = format!("tuple{}", "[]".repeat(256));
    read(&composed(&vec![half.clone(); 2]));
    assert!(find_flaw(&composed(&vec![half; 3])).is_some());
}

#[test]
fn outcome_agrees_with_the_reader() {
    let alphabet = ["(", ")", ",", "[", "]", "1", "a", "é", "int"];
    let mut names = vec![String::new()];
    let mut longest = names.clone();
    for _ in 0..5 {
        longest = longest
            .iter()
            .flat_map(|name| alphabet.iter().map(move |part| format!("{}{}", name, part)))
            .collect();
        names.extend(longest.iter().cloned());
    }
    let mut counts = [0usize; 3];
    for name in names {
        let text = taking(&name);
        match outcome(&name, 512) {
            Reading::Read => {
                counts[0] += 1;
                assert!(serde_json::from_str::<Abi>(&text).is_ok(), "{}", name);
            }
            Reading::Refused => {
                counts[1] += 1;
                assert!(serde_json::from_str::<Abi>(&text).is_err(), "{}", name);
            }
            Reading::Fatal => counts[2] += 1,
        }
    }
    assert!(counts[0] > 30_000, "{:?}", counts);
    assert!(counts[1] > 1_000, "{:?}", counts);
    assert_eq!(counts[2], 259);
}

#[test]
fn room_is_what_the_reader_calls_itself() {
    assert_eq!(outcome("bool", 0), Reading::Read);
    assert_eq!(outcome("bool[]", 0), Reading::Fatal);
    assert_eq!(outcome("bool[]", 1), Reading::Read);
    assert_eq!(outcome("(bool[2])[]", 2), Reading::Fatal);
    assert_eq!(outcome("(bool[2])[]", 3), Reading::Read);
}
