//! Serves lookups as they come in.
//!
//! Lookups reach the handler through a queue. What is in the cache is answered at once. For
//! anything else Etherscan is queried, and whoever asked waits until the query is done.
//!
//! The handler only decides. Reading the queue, making queries and passing on answers is up to
//! whoever drives it: [`EtherscanHandler::poll`] takes what happened and says what to do next.
use crate::abi::clone_contract;
use crate::address::Address;
use crate::ordered_map::OrderedMap;
use ethers::abi::Abi;
use std::borrow::Cow;
use vstd::prelude::*;

verus! {

/// What became known of an address: the label and the ABI of the contract there, if any.
pub type Info = Option<(String, Abi)>;

/// What the driver of a handler tells it.
///
/// `L` is what identifies a listener, who asked for an address and waits to be told. `R` is a query
/// that is being made.
pub enum Event<L, R> {
    /// A new round begins.
    Wake,
    /// The queue held a lookup of `address` for `listener`.
    Incoming { address: Address, listener: L },
    /// The queue holds no lookup. If it is `closed` it never will.
    Drained { closed: bool },
    /// The query that was ordered has been made ready.
    Started { request: R },
    /// The query that was to be pursued is done.
    Ready { info: Info },
    /// The query that was to be pursued is not done yet.
    Pending { request: R },
}

/// What a handler tells its driver to do.
pub enum Command<R> {
    /// See whether the queue holds a lookup.
    Pull,
    /// Make ready a query about `address`.
    Query { address: Address },
    /// Pursue the query about `address`.
    Pursue { address: Address, request: R },
    /// End the round. If `done` there will be no other.
    Return { done: bool },
}

/// The answers to pass on, in this order, and what to do after that.
pub struct Step<L, R> {
    pub replies: Vec<(L, Info)>,
    pub command: Command<R>,
}

/// How far a handler has come in its round.
enum Stage<L> {
    Idle,
    Pulling,
    Querying { address: Address, listener: L },
    Pursuing { address: Address, index: usize, closed: bool },
}

/// How far a handler has come in its round.
pub ghost enum Phase<L> {
    /// Between rounds.
    Idle,
    /// The queue is being read.
    Pulling,
    /// A query about `address` is being made ready for `listener`.
    Querying { address: Address, listener: L },
    /// The query about `address` is being pursued, which stood at `index` among the pending ones.
    /// Those below `index` are still to be pursued in this round.
    Pursuing { address: Address, index: int, closed: bool },
}

/// What a handler knows and remembers.
pub ghost struct HandlerState<L, R> {
    /// What became known of addresses.
    pub cache: Map<Seq<u8>, Info>,
    /// The queries that are not done, but for the one that is being pursued.
    pub pending: Seq<(Address, R)>,
    /// Who waits for which address.
    pub waiting: Map<Seq<u8>, Seq<L>>,
    pub phase: Phase<L>,
}

/// The queries among `pending` about `address`.
pub open spec fn queries_about<R>(pending: Seq<(Address, R)>, address: Seq<u8>) -> int
    decreases pending.len(),
{
    if pending.len() == 0 {
        0
    } else {
        queries_about(pending.drop_last(), address) + if pending.last().0@ == address {
            1int
        } else {
            0int
        }
    }
}

/// A sequence without its item at `i`, whose place the last item takes.
pub open spec fn swap_removed<T>(items: Seq<T>, i: int) -> Seq<T> {
    items.update(i, items.last()).drop_last()
}

/// The same answer for each of several listeners.
pub open spec fn answers<L>(listeners: Seq<L>, info: Info) -> Seq<(L, Info)> {
    listeners.map_values(|listener: L| (listener, info))
}

impl<L, R> HandlerState<L, R> {
    /// The state of a handler that has not been driven yet.
    pub open spec fn start() -> Self {
        HandlerState {
            cache: Map::empty(),
            pending: Seq::empty(),
            waiting: Map::empty(),
            phase: Phase::Idle,
        }
    }

    /// Who waits for `address`.
    pub open spec fn listeners(self, address: Seq<u8>) -> Seq<L> {
        if self.waiting.contains_key(address) {
            self.waiting[address]
        } else {
            Seq::empty()
        }
    }

    /// The number of queries about `address` that are not done.
    pub open spec fn outstanding(self, address: Seq<u8>) -> int {
        queries_about(self.pending, address) + match self.phase {
            Phase::Pursuing { address: pursued, .. } if pursued@ == address => 1int,
            _ => 0int,
        }
    }

    /// A query that is being pursued stood among the pending ones.
    pub open spec fn well_formed(self) -> bool {
        self.phase matches Phase::Pursuing { index, .. } ==> 0 <= index <= self.pending.len()
    }

    /// What holds between any two events.
    pub open spec fn inv(self) -> bool {
        &&& self.well_formed()
        // An address that somebody waits for is not in the cache, and there is a query about it.
        &&& forall|address: Seq<u8>| #[trigger]
            self.waiting.contains_key(address) ==> !self.cache.contains_key(address)
                && self.outstanding(address) > 0
        // An address is queried only while it is not in the cache.
        &&& self.phase matches Phase::Querying { address, .. } ==> !self.cache.contains_key(
            address@,
        )
    }

    /// Of an address that is not in the cache there are as many queries as listeners.
    pub open spec fn one_query_each(self) -> bool {
        forall|address: Seq<u8>|
            !self.cache.contains_key(address) ==> #[trigger] self.outstanding(address)
                == self.listeners(address).len()
    }

    /// Whether `event` can come next.
    pub open spec fn awaits(self, event: Event<L, R>) -> bool {
        match event {
            Event::Wake => self.phase is Idle,
            Event::Incoming { .. } => self.phase is Pulling,
            Event::Drained { .. } => self.phase is Pulling,
            Event::Started { .. } => self.phase is Querying,
            Event::Ready { .. } => self.phase is Pursuing,
            Event::Pending { .. } => self.phase is Pursuing,
        }
    }

    /// Goes on with the last of the first `n` pending queries, or ends the round if `n` is zero.
    /// The handler is done once the queue is closed and no query is pending.
    pub open spec fn pursue(self, n: int, closed: bool) -> (Self, Command<R>) {
        if n == 0 {
            (
                HandlerState { phase: Phase::Idle, ..self },
                Command::Return { done: closed && self.pending.len() == 0 },
            )
        } else {
            let (address, request) = self.pending[n - 1];
            (
                HandlerState {
                    pending: swap_removed(self.pending, n - 1),
                    phase: Phase::Pursuing { address, index: n - 1, closed },
                    ..self
                },
                Command::Pursue { address, request },
            )
        }
    }

    /// What `event` leads to: the new state, the answers to pass on, and what to do next.
    pub open spec fn step(self, event: Event<L, R>) -> (Self, Seq<(L, Info)>, Command<R>) {
        match (self.phase, event) {
            (Phase::Idle, Event::Wake) => (
                HandlerState { phase: Phase::Pulling, ..self },
                Seq::empty(),
                Command::Pull,
            ),
            (Phase::Pulling, Event::Incoming { address, listener }) => {
                if self.cache.contains_key(address@) {
                    (self, seq![(listener, self.cache[address@])], Command::Pull)
                } else {
                    (
                        HandlerState { phase: Phase::Querying { address, listener }, ..self },
                        Seq::empty(),
                        Command::Query { address },
                    )
                }
            },
            (Phase::Querying { address, listener }, Event::Started { request }) => (
                HandlerState {
                    pending: self.pending.push((address, request)),
                    waiting: self.waiting.insert(
                        address@,
                        self.listeners(address@).push(listener),
                    ),
                    phase: Phase::Pulling,
                    ..self
                },
                Seq::empty(),
                Command::Pull,
            ),
            (Phase::Pulling, Event::Drained { closed }) => {
                let (after, command) = self.pursue(self.pending.len() as int, closed);
                (after, Seq::empty(), command)
            },
            (Phase::Pursuing { address, index, closed }, Event::Ready { info }) => {
                let told = HandlerState {
                    cache: self.cache.insert(address@, info),
                    waiting: self.waiting.remove(address@),
                    ..self
                };
                let (after, command) = told.pursue(index, closed);
                (after, answers(self.listeners(address@), info), command)
            },
            (Phase::Pursuing { address, index, closed }, Event::Pending { request }) => {
                let kept = HandlerState { pending: self.pending.push((address, request)), ..self };
                let (after, command) = kept.pursue(index, closed);
                (after, Seq::empty(), command)
            },
            _ => (self, Seq::empty(), Command::Return { done: false }),
        }
    }
}

/// Keeps what became known of addresses, the queries that are being made, and who waits for them.
pub struct EtherscanHandler<L, R> {
    /// Cached information about addresses
    cache: OrderedMap<Address, Info>,
    /// Requests currently in progress
    pending_requests: Vec<(Address, R)>,
    /// Requests we haven't responded to yet
    waiting: OrderedMap<Address, Vec<L>>,
    /// How far the current round has come
    stage: Stage<L>,
}

impl<L, R> View for EtherscanHandler<L, R> {
    type V = HandlerState<L, R>;

    closed spec fn view(&self) -> HandlerState<L, R> {
        HandlerState {
            cache: self.cache@,
            pending: self.pending_requests@,
            waiting: self.waiting@.map_values(|listeners: Vec<L>| listeners@),
            phase: match self.stage {
                Stage::Idle => Phase::Idle,
                Stage::Pulling => Phase::Pulling,
                Stage::Querying { address, listener } => Phase::Querying { address, listener },
                Stage::Pursuing { address, index, closed } => {
                    Phase::Pursuing { address, index: index as int, closed }
                },
            },
        }
    }
}

/// A copy of what became known of an address.
pub fn clone_info(info: &Info) -> (copy: Info)
    ensures
        copy == *info,
{
    match info {
        Some(contract) => Some(clone_contract(contract)),
        None => None,
    }
}

/// The identity of an address for which a handler was asked. There is no reply if the lookup could
/// not be put into the queue, or if the handler ended before it answered.
pub fn identity_from_reply<'a>(reply: Option<Info>) -> (identity: (
    Option<String>,
    Option<String>,
    Option<Cow<'a, Abi>>,
))
    ensures
        match reply {
            Some(Some((label, abi))) => {
                identity == (None::<String>, Some(label), Some(Cow::<'a, Abi>::Owned(abi)))
            },
            _ => identity == (None::<String>, None::<String>, None::<Cow<'a, Abi>>),
        },
{
    match reply {
        Some(Some((label, abi))) => (None, Some(label), Some(Cow::Owned(abi))),
        _ => (None, None, None),
    }
}

impl<L, R> EtherscanHandler<L, R> {
    /// A handler that knows nothing yet and has nothing to do.
    pub fn new() -> (handler: Self)
        ensures
            handler@ == HandlerState::<L, R>::start(),
            handler@.inv(),
            handler@.one_query_each(),
    {
        let handler = EtherscanHandler {
            cache: OrderedMap::new(),
            pending_requests: Vec::new(),
            waiting: OrderedMap::new(),
            stage: Stage::Idle,
        };
        assert(handler@.waiting =~= Map::<Seq<u8>, Seq<L>>::empty());
        handler
    }

    /// Whether `event` can come next.
    pub fn awaits(&self, event: &Event<L, R>) -> (awaited: bool)
        ensures
            awaited == self@.awaits(*event),
    {
        match (&self.stage, event) {
            (Stage::Idle, Event::Wake) => true,
            (Stage::Pulling, Event::Incoming { .. }) => true,
            (Stage::Pulling, Event::Drained { .. }) => true,
            (Stage::Querying { .. }, Event::Started { .. }) => true,
            (Stage::Pursuing { .. }, Event::Ready { .. }) => true,
            (Stage::Pursuing { .. }, Event::Pending { .. }) => true,
            _ => false,
        }
    }

    /// Takes what happened and says what to do next.
    ///
    /// A round begins with [`Event::Wake`]. First the queue is read until it is drained. Then every
    /// pending query is pursued once, from the last to the first. A query that is done goes into
    /// the cache, and all who wait for its address are told.
    pub fn poll(&mut self, event: Event<L, R>) -> (step: Step<L, R>)
        requires
            old(self)@.well_formed(),
            old(self)@.awaits(event),
        ensures
            final(self)@.well_formed(),
            old(self)@.inv() ==> final(self)@.inv(),
            (final(self)@, step.replies@, step.command) == old(self)@.step(event),
    {
        proof {
            if self@.inv() {
                law_inv_kept(self@, event);
            }
        }
        let mut stage: Stage<L> = Stage::Idle;
        std::mem::swap(&mut stage, &mut self.stage);
        let mut replies: Vec<(L, Info)> = Vec::new();
        let command: Command<R>;
        match (stage, event) {
            (Stage::Idle, Event::Wake) => {
                self.stage = Stage::Pulling;
                command = Command::Pull;
            },
            (Stage::Pulling, Event::Incoming { address, listener }) => {
                match self.cache.get(&address) {
                    // If we have this address in the cache we just respond
                    Some(info) => {
                        replies.push((listener, clone_info(info)));
                        self.stage = Stage::Pulling;
                        command = Command::Pull;
                    },
                    // Otherwise we send a request to Etherscan
                    None => {
                        self.stage = Stage::Querying { address, listener };
                        command = Command::Query { address };
                    },
                }
            },
            (Stage::Querying { address, listener }, Event::Started { request }) => {
                self.pending_requests.push((address, request));
                self.enlist(address, listener);
                self.stage = Stage::Pulling;
                command = Command::Pull;
            },
            (Stage::Pulling, Event::Drained { closed }) => {
                let n: usize = self.pending_requests.len();
                command = self.pursue(n, closed);
            },
            (Stage::Pursuing { address, index, closed }, Event::Ready { info }) => {
                // Update cache
                self.cache.insert(address, clone_info(&info));
                // Notify all listeners
                replies = self.settle(address, &info);
                command = self.pursue(index, closed);
            },
            (Stage::Pursuing { address, index, closed }, Event::Pending { request }) => {
                self.pending_requests.push((address, request));
                command = self.pursue(index, closed);
            },
            _ => {
                command = vstd::pervasive::unreached();
            },
        }
        Step { replies, command }
    }

    /// Adds `listener` to those who wait for `address`.
    fn enlist(&mut self, address: Address, listener: L)
        ensures
            final(self)@ == (HandlerState {
                waiting: old(self)@.waiting.insert(
                    address@,
                    old(self)@.listeners(address@).push(listener),
                ),
                ..old(self)@
            }),
    {
        let ghost before = self@;
        let mut listeners: Vec<L> = match self.waiting.remove(&address) {
            Some(listeners) => listeners,
            None => Vec::new(),
        };
        assert(listeners@ =~= before.listeners(address@));
        listeners.push(listener);
        self.waiting.insert(address, listeners);
        assert(self@.waiting =~= before.waiting.insert(
            address@,
            before.listeners(address@).push(listener),
        ));
    }

    /// Strikes out all who wait for `address` and returns what to tell them.
    fn settle(&mut self, address: Address, info: &Info) -> (replies: Vec<(L, Info)>)
        ensures
            final(self)@ == (HandlerState {
                waiting: old(self)@.waiting.remove(address@),
                ..old(self)@
            }),
            replies@ == answers(old(self)@.listeners(address@), *info),
    {
        let ghost before = self@;
        let mut replies: Vec<(L, Info)> = Vec::new();
        let removed = self.waiting.remove(&address);
        assert(self@.waiting =~= before.waiting.remove(address@));
        if let Some(listeners) = removed {
            let ghost all = listeners@;
            for listener in waiting: listeners
                invariant
                    waiting.seq() == all,
                    replies@ == answers(all.take(waiting.index() as int), *info),
            {
                proof {
                    assert(all.take(waiting.index() as int + 1) =~= all.take(
                        waiting.index() as int,
                    ).push(listener));
                }
                replies.push((listener, clone_info(info)));
            }
            assert(all.take(all.len() as int) =~= all);
        }
        assert(replies@ =~= answers(before.listeners(address@), *info));
        replies
    }

    /// Goes on with the last of the first `n` pending queries, or ends the round if there is none.
    fn pursue(&mut self, n: usize, closed: bool) -> (command: Command<R>)
        requires
            n <= old(self)@.pending.len(),
        ensures
            (final(self)@, command) == old(self)@.pursue(n as int, closed),
    {
        if n == 0 {
            self.stage = Stage::Idle;
            // Check if we're done
            Command::Return { done: closed && self.pending_requests.is_empty() }
        } else {
            let index: usize = n - 1;
            let (address, request) = self.pending_requests.swap_remove(index);
            self.stage = Stage::Pursuing { address, index, closed };
            Command::Pursue { address, request }
        }
    }
}

proof fn lemma_queries_update<R>(
    pending: Seq<(Address, R)>,
    i: int,
    query: (Address, R),
    address: Seq<u8>,
)
    requires
        0 <= i < pending.len(),
    ensures
        queries_about(pending.update(i, query), address) == queries_about(pending, address) - (
        if pending[i].0@ == address {
            1int
        } else {
            0int
        }) + (if query.0@ == address {
            1int
        } else {
            0int
        }),
    decreases pending.len(),
{
    let after = pending.update(i, query);
    if i == pending.len() - 1 {
        assert(after.drop_last() =~= pending.drop_last());
    } else {
        assert(after.drop_last() =~= pending.drop_last().update(i, query));
        lemma_queries_update(pending.drop_last(), i, query, address);
    }
}

proof fn lemma_queries_swap_removed<R>(pending: Seq<(Address, R)>, i: int, address: Seq<u8>)
    requires
        0 <= i < pending.len(),
    ensures
        queries_about(pending, address) == queries_about(swap_removed(pending, i), address) + (
        if pending[i].0@ == address {
            1int
        } else {
            0int
        }),
{
    lemma_queries_update(pending, i, pending.last(), address);
}

proof fn lemma_queries_push<R>(
    pending: Seq<(Address, R)>,
    query: (Address, R),
    address: Seq<u8>,
)
    ensures
        queries_about(pending.push(query), address) == queries_about(pending, address) + (
        if query.0@ == address {
            1int
        } else {
            0int
        }),
{
    assert(pending.push(query).drop_last() =~= pending);
}

/// Moving on to the next pending query leaves the number of queries about each address as it is.
proof fn lemma_pursue_outstanding<L, R>(
    state: HandlerState<L, R>,
    n: int,
    closed: bool,
    address: Seq<u8>,
)
    requires
        0 <= n <= state.pending.len(),
    ensures
        state.pursue(n, closed).0.outstanding(address) == queries_about(state.pending, address),
{
    if n > 0 {
        lemma_queries_swap_removed(state.pending, n - 1, address);
    }
}

/// The number of queries about an address changes only when one is started or done.
proof fn lemma_step_outstanding<L, R>(state: HandlerState<L, R>, event: Event<L, R>, a: Seq<u8>)
    requires
        state.well_formed(),
        state.awaits(event),
    ensures
        state.step(event).0.outstanding(a) == state.outstanding(a) + match (state.phase, event) {
            (Phase::Querying { address, .. }, Event::Started { .. }) if address@ == a => 1int,
            (Phase::Pursuing { address, .. }, Event::Ready { .. }) if address@ == a => -1int,
            _ => 0int,
        },
{
    match (state.phase, event) {
        (Phase::Querying { address, listener }, Event::Started { request }) => {
            lemma_queries_push(state.pending, (address, request), a);
        },
        (Phase::Pulling, Event::Drained { closed }) => {
            lemma_pursue_outstanding(state, state.pending.len() as int, closed, a);
        },
        (Phase::Pursuing { address, index, closed }, Event::Ready { info }) => {
            lemma_pursue_outstanding(state, index, closed, a);
        },
        (Phase::Pursuing { address, index, closed }, Event::Pending { request }) => {
            lemma_queries_push(state.pending, (address, request), a);
            let kept = HandlerState { pending: state.pending.push((address, request)), ..state };
            lemma_pursue_outstanding(kept, index, closed, a);
        },
        _ => {},
    }
}

proof fn lemma_queries_not_negative<R>(pending: Seq<(Address, R)>, address: Seq<u8>)
    ensures
        queries_about(pending, address) >= 0,
    decreases pending.len(),
{
    if pending.len() > 0 {
        lemma_queries_not_negative(pending.drop_last(), address);
    }
}

/// Whatever happens, the invariant is kept: nobody waits for an address that is in the cache, and
/// there is a query about every address that somebody waits for.
pub proof fn law_inv_kept<L, R>(state: HandlerState<L, R>, event: Event<L, R>)
    requires
        state.inv(),
        state.awaits(event),
    ensures
        state.step(event).0.inv(),
{
    let after = state.step(event).0;
    assert forall|a: Seq<u8>| #[trigger]
        after.waiting.contains_key(a) implies !after.cache.contains_key(a) && after.outstanding(a)
        > 0 by {
        lemma_step_outstanding(state, event, a);
        lemma_queries_not_negative(state.pending, a);
        assert(state.waiting.contains_key(a) ==> state.outstanding(a) > 0);
    }
}

/// Every listener has a query of their own: if there are as many queries as listeners of every
/// address that is not in the cache, then whatever happens there are afterwards, too.
pub proof fn law_one_query_each_kept<L, R>(state: HandlerState<L, R>, event: Event<L, R>)
    requires
        state.well_formed(),
        state.one_query_each(),
        state.awaits(event),
    ensures
        state.step(event).0.well_formed(),
        state.step(event).0.one_query_each(),
{
    let after = state.step(event).0;
    assert forall|a: Seq<u8>| !after.cache.contains_key(a) implies #[trigger] after.outstanding(a)
        == after.listeners(a).len() by {
        lemma_step_outstanding(state, event, a);
        assert(state.outstanding(a) == state.listeners(a).len());
    }
}

} // verus!
