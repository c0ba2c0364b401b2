use ethers::abi::Abi;
use foundry::address::Address;
use foundry::identifier::handler::{
    clone_info, identity_from_reply, Command, EtherscanHandler, Event, Info, Step,
};
use std::borrow::Cow;

type Handler = EtherscanHandler<&'static str, u32>;

fn address(last: u8) -> Address {
    let mut bytes = [0u8; 20];
    bytes[19] = last;
    Address(bytes)
}

fn info(name: &str) -> Info {
    Some((name.to_string(), Abi::default()))
}

/// Hands an event to the handler, which must await it.
fn tell(handler: &mut Handler, event: Event<&'static str, u32>) -> Step<&'static str, u32> {
    assert!(handler.awaits(&event));
    handler.poll(event)
}

fn pulls(step: &Step<&'static str, u32>) -> bool {
    matches!(step.command, Command::Pull)
}

/// Looks up an address that has to be queried, and starts the query.
fn look_up(handler: &mut Handler, last: u8, listener: &'static str, request: u32) {
    let step = tell(handler, Event::Incoming { address: address(last), listener });
    assert!(step.replies.is_empty());
    match step.command {
        Command::Query { address: queried } => assert_eq!(queried.0, address(last).0),
        _ => panic!("a query is ordered"),
    }
    let step = tell(handler, Event::Started { request });
    assert!(step.replies.is_empty());
    assert!(pulls(&step));
}

fn pursued(step: &Step<&'static str, u32>) -> (u8, u32) {
    match &step.command {
        Command::Pursue { address, request } => (address.0[19], *request),
        _ => panic!("a query is pursued"),
    }
}

fn returned(step: &Step<&'static str, u32>) -> bool {
    match &step.command {
        Command::Return { done } => *done,
        _ => panic!("the round ends"),
    }
}

#[test]
fn closed_queue_without_lookups_ends_the_handler() {
    let mut handler = Handler::new();
    let step = tell(&mut handler, Event::Wake);
    assert!(pulls(&step));
    let step = tell(&mut handler, Event::Drained { closed: true });
    assert!(step.replies.is_empty());
    assert!(returned(&step));
}

#[test]
fn open_queue_keeps_the_handler_going() {
    let mut handler = Handler::new();
    tell(&mut handler, Event::Wake);
    let step = tell(&mut handler, Event::Drained { closed: false });
    assert!(!returned(&step));
    assert!(pulls(&tell(&mut handler, Event::Wake)));
}

#[test]
fn answer_reaches_all_who_wait_in_order() {
    let mut handler = Handler::new();
    tell(&mut handler, Event::Wake);
    look_up(&mut handler, 1, "a", 10);
    look_up(&mut handler, 2, "b", 20);
    look_up(&mut handler, 1, "c", 11);
    let step = tell(&mut handler, Event::Drained { closed: true });
    assert_eq!(pursued(&step), (1, 11));
    let step = tell(&mut handler, Event::Ready { info: info("One") });
    assert_eq!(step.replies, vec![("a", info("One")), ("c", info("One"))]);
    assert_eq!(pursued(&step), (2, 20));
    let step = tell(&mut handler, Event::Ready { info: None });
    assert_eq!(step.replies, vec![("b", None)]);
    assert_eq!(pursued(&step), (1, 10));
    // The second query about the same address tells nobody.
    let step = tell(&mut handler, Event::Ready { info: info("Uno") });
    assert!(step.replies.is_empty());
    assert!(returned(&step));
}

#[test]
fn every_listener_has_a_query_of_their_own() {
    let mut handler = Handler::new();
    tell(&mut handler, Event::Wake);
    for (listener, request) in [("a", 10), ("b", 11), ("c", 12)] {
        look_up(&mut handler, 1, listener, request);
    }
    let mut step = tell(&mut handler, Event::Drained { closed: false });
    for request in [12, 11, 10] {
        assert_eq!(pursued(&step), (1, request));
        step = tell(&mut handler, Event::Pending { request });
    }
    assert!(!returned(&step));
}

#[test]
fn cached_address_is_answered_at_once() {
    let mut handler = Handler::new();
    tell(&mut handler, Event::Wake);
    look_up(&mut handler, 1, "a", 10);
    tell(&mut handler, Event::Drained { closed: false });
    let step = tell(&mut handler, Event::Ready { info: info("One") });
    assert_eq!(step.replies, vec![("a", info("One"))]);
    assert!(!returned(&step));
    tell(&mut handler, Event::Wake);
    let step = tell(&mut handler, Event::Incoming { address: address(1), listener: "b" });
    assert_eq!(step.replies, vec![("b", info("One"))]);
    assert!(pulls(&step));
}

#[test]
fn absence_of_a_contract_is_cached_too() {
    let mut handler = Handler::new();
    tell(&mut handler, Event::Wake);
    look_up(&mut handler, 1, "a", 10);
    tell(&mut handler, Event::Drained { closed: false });
    tell(&mut handler, Event::Ready { info: None });
    tell(&mut handler, Event::Wake);
    let step = tell(&mut handler, Event::Incoming { address: address(1), listener: "b" });
    assert_eq!(step.replies, vec![("b", None)]);
}

#[test]
fn later_answer_replaces_the_cached_one() {
    let mut handler = Handler::new();
    tell(&mut handler, Event::Wake);
    look_up(&mut handler, 1, "a", 10);
    look_up(&mut handler, 1, "b", 11);
    tell(&mut handler, Event::Drained { closed: false });
    tell(&mut handler, Event::Ready { info: info("One") });
    tell(&mut handler, Event::Ready { info: info("Uno") });
    tell(&mut handler, Event::Wake);
    let step = tell(&mut handler, Event::Incoming { address: address(1), listener: "c" });
    assert_eq!(step.replies, vec![("c", info("Uno"))]);
}

#[test]
fn round_pursues_each_query_once() {
    let mut handler = Handler::new();
    tell(&mut handler, Event::Wake);
    look_up(&mut handler, 1, "a", 10);
    look_up(&mut handler, 2, "b", 20);
    look_up(&mut handler, 3, "c", 30);
    let step = tell(&mut handler, Event::Drained { closed: true });
    assert_eq!(pursued(&step), (3, 30));
    let step = tell(&mut handler, Event::Pending { request: 31 });
    assert_eq!(pursued(&step), (2, 20));
    let step = tell(&mut handler, Event::Ready { info: None });
    assert_eq!(step.replies, vec![("b", None)]);
    assert_eq!(pursued(&step), (1, 10));
    let step = tell(&mut handler, Event::Pending { request: 11 });
    assert!(!returned(&step));

    // What was not done is pursued in the next round, and nothing else.
    tell(&mut handler, Event::Wake);
    let step = tell(&mut handler, Event::Drained { closed: true });
    let first = pursued(&step);
    let step = tell(&mut handler, Event::Ready { info: None });
    let second = pursued(&step);
    let mut both = vec![first, second];
    both.sort();
    assert_eq!(both, vec![(1, 11), (3, 31)]);
    let step = tell(&mut handler, Event::Ready { info: None });
    assert!(returned(&step));
}

#[test]
fn handler_is_not_done_while_a_query_is_pending() {
    let mut handler = Handler::new();
    tell(&mut handler, Event::Wake);
    look_up(&mut handler, 1, "a", 10);
    tell(&mut handler, Event::Drained { closed: true });
    let step = tell(&mut handler, Event::Pending { request: 10 });
    assert!(step.replies.is_empty());
    assert!(!returned(&step));
}

#[test]
fn handler_awaits_what_it_asked_for() {
    let mut handler = Handler::new();
    assert!(handler.awaits(&Event::Wake));
    assert!(!handler.awaits(&Event::Drained { closed: true }));
    tell(&mut handler, Event::Wake);
    assert!(!handler.awaits(&Event::Wake));
    assert!(handler.awaits(&Event::Incoming { address: address(1), listener: "a" }));
    assert!(handler.awaits(&Event::Drained { closed: false }));
    assert!(!handler.awaits(&Event::Started { request: 1 }));
    tell(&mut handler, Event::Incoming { address: address(1), listener: "a" });
    assert!(handler.awaits(&Event::Started { request: 1 }));
    assert!(!handler.awaits(&Event::Drained { closed: false }));
    tell(&mut handler, Event::Started { request: 1 });
    tell(&mut handler, Event::Drained { closed: false });
    assert!(handler.awaits(&Event::Ready { info: None }));
    assert!(handler.awaits(&Event::Pending { request: 1 }));
    assert!(!handler.awaits(&Event::Wake));
}

#[test]
fn reply_gives_label_and_abi() {
    let (contract, label, abi) = identity_from_reply(Some(info("One")));
    assert_eq!(contract, None);
    assert_eq!(label, Some("One".to_string()));
    assert!(matches!(abi, Some(Cow::Owned(_))));
}

#[test]
fn missing_reply_identifies_nothing() {
    for reply in [None, Some(None)] {
        let (contract, label, abi) = identity_from_reply(reply);
        assert_eq!((contract, label), (None, None));
        assert!(abi.is_none());
    }
}

#[test]
fn info_is_copied() {
    assert_eq!(clone_info(&info("One")), info("One"));
    assert_eq!(clone_info(&None), None);
}
