//! What holds of a handler however it is driven.
use crate::address::Address;
use crate::identifier::handler::{law_inv_kept, law_one_query_each_kept, swap_removed};
use crate::identifier::handler::{Command, Event, HandlerState, Info, Phase};
use vstd::multiset::Multiset;
use vstd::prelude::*;

verus! {

/// The state that several events lead to.
pub open spec fn run<L, R>(state: HandlerState<L, R>, events: Seq<Event<L, R>>) -> HandlerState<
    L,
    R,
>
    decreases events.len(),
{
    if events.len() == 0 {
        state
    } else {
        run(state, events.drop_last()).step(events.last()).0
    }
}

/// Events each of which can come when it does.
pub open spec fn awaited<L, R>(state: HandlerState<L, R>, events: Seq<Event<L, R>>) -> bool
    decreases events.len(),
{
    events.len() == 0 || {
        &&& awaited(state, events.drop_last())
        &&& run(state, events.drop_last()).awaits(events.last())
    }
}

/// What the handler says to do after the last of several events.
pub open spec fn last_command<L, R>(
    state: HandlerState<L, R>,
    events: Seq<Event<L, R>>,
) -> Command<R>
    recommends
        events.len() > 0,
{
    run(state, events.drop_last()).step(events.last()).2
}

/// The invariant holds of a handler at any time if it does at some time before.
pub proof fn law_inv_always<L, R>(state: HandlerState<L, R>, events: Seq<Event<L, R>>)
    requires
        state.inv(),
        awaited(state, events),
    ensures
        run(state, events).inv(),
    decreases events.len(),
{
    if events.len() > 0 {
        law_inv_always(state, events.drop_last());
        law_inv_kept(run(state, events.drop_last()), events.last());
    }
}

/// At any time there are as many queries about an address that is not in the cache as there are
/// listeners who wait for it.
pub proof fn law_one_query_each_always<L, R>(events: Seq<Event<L, R>>)
    requires
        awaited(HandlerState::<L, R>::start(), events),
    ensures
        run(HandlerState::<L, R>::start(), events).well_formed(),
        run(HandlerState::<L, R>::start(), events).one_query_each(),
    decreases events.len(),
{
    let start = HandlerState::<L, R>::start();
    if events.len() > 0 {
        law_one_query_each_always(events.drop_last());
        law_one_query_each_kept(run(start, events.drop_last()), events.last());
    }
}

/// The address that an event is about, if the event can bring answers: that of a lookup that came
/// in, or that of the query that is done.
pub open spec fn subject<L, R>(state: HandlerState<L, R>, event: Event<L, R>) -> Option<Seq<u8>> {
    match (state.phase, event) {
        (Phase::Pulling, Event::Incoming { address, .. }) => Some(address@),
        (Phase::Pursuing { address, .. }, Event::Ready { .. }) => Some(address@),
        _ => None,
    }
}

/// Every answer says of the address what the cache says of it from that time on.
pub proof fn law_answers_agree_with_cache<L, R>(state: HandlerState<L, R>, event: Event<L, R>)
    requires
        state.inv(),
        state.awaits(event),
    ensures
        ({
            let (after, replies, _) = state.step(event);
            forall|i: int|
                0 <= i < replies.len() ==> {
                    &&& subject(state, event) is Some
                    &&& after.cache.contains_key(subject(state, event).unwrap())
                    &&& (#[trigger] replies[i]).1 == after.cache[subject(state, event).unwrap()]
                }
        }),
{
}

/// An address is queried only while it is not in the cache; a lookup of one that is there is
/// answered at once.
pub proof fn law_known_addresses_are_not_queried<L, R>(
    state: HandlerState<L, R>,
    address: Address,
    listener: L,
)
    requires
        state.phase is Pulling,
    ensures
        ({
            let (after, replies, command) = state.step(Event::Incoming { address, listener });
            if state.cache.contains_key(address@) {
                &&& after == state
                &&& replies == seq![(listener, state.cache[address@])]
                &&& command == Command::<R>::Pull
            } else {
                &&& replies.len() == 0
                &&& command == Command::<R>::Query { address }
            }
        }),
{
}

/// What is in the cache stays there, and only the end of a query about an address changes what the
/// cache says of it.
pub proof fn law_cache_grows<L, R>(state: HandlerState<L, R>, event: Event<L, R>, address: Seq<u8>)
    ensures
        state.cache.contains_key(address) ==> state.step(event).0.cache.contains_key(address),
        !(event is Ready && subject(state, event) == Some(address)) ==> {
            &&& state.step(event).0.cache.contains_key(address) == state.cache.contains_key(address)
            &&& state.step(event).0.cache[address] == state.cache[address]
        },
{
}

/// Once the handler is done no query is pending and nobody waits.
pub proof fn law_done_leaves_nobody_waiting<L, R>(state: HandlerState<L, R>, event: Event<L, R>)
    requires
        state.inv(),
        state.awaits(event),
        state.step(event).2 == (Command::<R>::Return { done: true }),
    ensures
        state.step(event).0.pending.len() == 0,
        forall|address: Seq<u8>| !#[trigger] state.step(event).0.waiting.contains_key(address),
{
    law_inv_kept(state, event);
    let after = state.step(event).0;
    assert forall|address: Seq<u8>| !#[trigger] after.waiting.contains_key(address) by {
        if after.waiting.contains_key(address) {
            assert(after.outstanding(address) > 0);
        }
    }
}

/// The listeners who ask for `address` with an event.
pub open spec fn asks<L, R>(event: Event<L, R>, address: Seq<u8>) -> Seq<L> {
    match event {
        Event::Incoming { address: asked, listener } if asked@ == address => seq![listener],
        _ => Seq::empty(),
    }
}

/// The listeners who ask for `address` in several events, in that order.
pub open spec fn asked<L, R>(events: Seq<Event<L, R>>, address: Seq<u8>) -> Seq<L>
    decreases events.len(),
{
    if events.len() == 0 {
        Seq::empty()
    } else {
        asked(events.drop_last(), address) + asks(events.last(), address)
    }
}

/// The listeners who are answered about `address` at an event.
pub open spec fn tells<L, R>(
    state: HandlerState<L, R>,
    event: Event<L, R>,
    address: Seq<u8>,
) -> Seq<L> {
    if subject(state, event) == Some(address) {
        state.step(event).1.map_values(|reply: (L, Info)| reply.0)
    } else {
        Seq::empty()
    }
}

/// The listeners who are answered about `address` in the course of several events, in that order.
pub open spec fn told<L, R>(
    state: HandlerState<L, R>,
    events: Seq<Event<L, R>>,
    address: Seq<u8>,
) -> Seq<L>
    decreases events.len(),
{
    if events.len() == 0 {
        Seq::empty()
    } else {
        told(state, events.drop_last(), address) + tells(
            run(state, events.drop_last()),
            events.last(),
            address,
        )
    }
}

/// The listeners who have asked for `address` and are not answered, in the order in which they
/// asked.
pub open spec fn unanswered<L, R>(state: HandlerState<L, R>, address: Seq<u8>) -> Seq<L> {
    match state.phase {
        Phase::Querying { address: queried, listener } if queried@ == address => {
            state.listeners(address).push(listener)
        },
        _ => state.listeners(address),
    }
}

proof fn lemma_step_tells<L, R>(state: HandlerState<L, R>, event: Event<L, R>, address: Seq<u8>)
    requires
        state.inv(),
        state.awaits(event),
    ensures
        tells(state, event, address) + unanswered(state.step(event).0, address) == unanswered(
            state,
            address,
        ) + asks(event, address),
{
    let after = state.step(event).0;
    let told = tells(state, event, address);
    match (state.phase, event) {
        (Phase::Pulling, Event::Incoming { address: asked, listener }) => {
            if asked@ == address && state.cache.contains_key(address) {
                assert(state.listeners(address).len() == 0);
                assert(told =~= seq![listener]);
            }
        },
        (Phase::Pursuing { address: pursued, .. }, Event::Ready { info }) => {
            if pursued@ == address {
                assert(told =~= state.listeners(address));
                assert(after.listeners(address).len() == 0);
            }
        },
        _ => {},
    }
    assert(told + unanswered(after, address) =~= unanswered(state, address) + asks(
        event,
        address,
    ));
}

/// Whoever asked for an address has been answered or still waits, each once: those who were
/// answered, in the order of the answers, followed by those who wait, are those who waited in the
/// beginning and those who asked since, in the order in which they asked.
pub proof fn law_everyone_is_answered_once<L, R>(
    state: HandlerState<L, R>,
    events: Seq<Event<L, R>>,
    address: Seq<u8>,
)
    requires
        state.inv(),
        awaited(state, events),
    ensures
        told(state, events, address) + unanswered(run(state, events), address) == unanswered(
            state,
            address,
        ) + asked(events, address),
    decreases events.len(),
{
    if events.len() == 0 {
        assert(told(state, events, address) + unanswered(run(state, events), address)
            =~= unanswered(state, address) + asked(events, address));
    } else {
        let earlier = events.drop_last();
        let before = run(state, earlier);
        law_everyone_is_answered_once(state, earlier, address);
        law_inv_always(state, earlier);
        lemma_step_tells(before, events.last(), address);
        let tells = tells(before, events.last(), address);
        let rest = unanswered(before.step(events.last()).0, address);
        let asks = asks(events.last(), address);
        assert(told(state, earlier, address) + tells + rest =~= told(state, earlier, address) + (
        tells + rest));
        assert(told(state, earlier, address) + (unanswered(before, address) + asks) =~= told(
            state,
            earlier,
            address,
        ) + unanswered(before, address) + asks);
        assert(unanswered(state, address) + asked(earlier, address) + asks =~= unanswered(
            state,
            address,
        ) + (asked(earlier, address) + asks));
    }
}

/// By the time the handler is done, all who waited for an address and all who asked for it since
/// have been answered, in the order in which they asked.
pub proof fn law_done_means_all_answered<L, R>(
    state: HandlerState<L, R>,
    events: Seq<Event<L, R>>,
    address: Seq<u8>,
)
    requires
        state.inv(),
        awaited(state, events),
        events.len() > 0,
        last_command(state, events) == (Command::<R>::Return { done: true }),
    ensures
        told(state, events, address) == unanswered(state, address) + asked(events, address),
{
    let earlier = events.drop_last();
    law_inv_always(state, earlier);
    law_done_leaves_nobody_waiting(run(state, earlier), events.last());
    law_everyone_is_answered_once(state, events, address);
    assert(!run(state, events).waiting.contains_key(address));
    assert(unanswered(run(state, events), address) =~= Seq::empty());
    assert(told(state, events, address) + Seq::<L>::empty() =~= told(state, events, address));
}

/// What can be said of a query that was to be pursued: that it is done, or that it is not.
pub open spec fn is_outcome<L, R>(event: Event<L, R>) -> bool {
    event is Ready || event is Pending
}

/// The queries that turned out not to be done. The outcomes are those of the queries of `pending`
/// from the last one on down.
pub open spec fn kept<L, R>(
    pending: Seq<(Address, R)>,
    outcomes: Seq<Event<L, R>>,
) -> Multiset<(Address, R)>
    decreases outcomes.len(),
{
    if outcomes.len() == 0 {
        Multiset::empty()
    } else {
        let earlier = kept(pending, outcomes.drop_last());
        match outcomes.last() {
            Event::Pending { request } => earlier.insert(
                (pending[pending.len() - outcomes.len()].0, request),
            ),
            _ => earlier,
        }
    }
}

/// The events of a round after the last lookup has been taken from the queue.
pub open spec fn round<L, R>(closed: bool, outcomes: Seq<Event<L, R>>) -> Seq<Event<L, R>> {
    seq![Event::Drained { closed }] + outcomes
}

/// The first `n` queries of `pending` are still to be pursued in `state`, and besides those only
/// the queries of `others` are pending.
spec fn to_pursue<L, R>(
    state: HandlerState<L, R>,
    pending: Seq<(Address, R)>,
    n: int,
    others: Multiset<(Address, R)>,
) -> bool {
    &&& 0 <= n <= pending.len()
    &&& n <= state.pending.len()
    &&& state.pending.take(n) == pending.take(n)
    &&& state.pending.to_multiset() == pending.take(n).to_multiset().add(others)
}

proof fn lemma_pursue<L, R>(
    state: HandlerState<L, R>,
    closed: bool,
    pending: Seq<(Address, R)>,
    n: int,
    others: Multiset<(Address, R)>,
)
    requires
        to_pursue(state, pending, n, others),
    ensures
        n > 0 ==> {
            &&& to_pursue(state.pursue(n, closed).0, pending, n - 1, others)
            &&& state.pursue(n, closed).0.phase == (Phase::<L>::Pursuing {
                address: pending[n - 1].0,
                index: n - 1,
                closed,
            })
            &&& state.pursue(n, closed).1 == (Command::Pursue {
                address: pending[n - 1].0,
                request: pending[n - 1].1,
            })
        },
        n == 0 ==> {
            &&& state.pursue(n, closed).0.pending.to_multiset() == others
            &&& state.pursue(n, closed).1 == (Command::<R>::Return {
                done: closed && others.len() == 0,
            })
        },
{
    broadcast use vstd::seq_lib::group_to_multiset_ensures;

    if n > 0 {
        let after = state.pursue(n, closed).0.pending;
        assert(state.pending.take(n)[n - 1] == pending.take(n)[n - 1]);
        assert(state.pending[n - 1] == pending[n - 1]);
        lemma_swap_removed(state.pending, n - 1);
        assert(pending.take(n) =~= pending.take(n - 1).push(pending[n - 1]));
        assert(after.to_multiset() =~= pending.take(n - 1).to_multiset().add(others));
        assert forall|i: int| 0 <= i < n - 1 implies after[i] == pending[i] by {
            assert(state.pending.take(n)[i] == pending.take(n)[i]);
        }
        assert(after.take(n - 1) =~= pending.take(n - 1));
    } else {
        assert(pending.take(0) =~= Seq::empty());
        assert(state.pending.to_multiset() =~= others);
        assert(state.pending.len() == state.pending.to_multiset().len());
    }
}

proof fn lemma_swap_removed<T>(items: Seq<T>, i: int)
    requires
        0 <= i < items.len(),
    ensures
        swap_removed(items, i).to_multiset() == items.to_multiset().remove(items[i]),
{
    broadcast use vstd::seq_lib::group_to_multiset_ensures;

    let updated = items.update(i, items.last());
    vstd::seq_lib::to_multiset_update(items, i, items.last());
    assert(updated.drop_last() =~= updated.remove(items.len() - 1));
    assert(updated.last() == items.last());
    assert(items.contains(items[i]));
    assert(items.to_multiset().insert(items.last()).remove(items[i]).remove(items.last())
        =~= items.to_multiset().remove(items[i]));
}

/// In a round every query that is pending when the queue is drained is pursued once, from the last
/// to the first. What is pending afterwards are the queries that turned out not to be done, and the
/// handler is done if there are none and the queue is closed.
pub proof fn law_round_pursues_each_query_once<L, R>(
    state: HandlerState<L, R>,
    closed: bool,
    outcomes: Seq<Event<L, R>>,
)
    requires
        state.phase is Pulling,
        outcomes.len() <= state.pending.len(),
        forall|i: int| 0 <= i < outcomes.len() ==> is_outcome(#[trigger] outcomes[i]),
    ensures
        awaited(state, round(closed, outcomes)),
        outcomes.len() < state.pending.len() ==> {
            let next = state.pending[state.pending.len() - outcomes.len() - 1];
            last_command(state, round(closed, outcomes)) == (Command::Pursue {
                address: next.0,
                request: next.1,
            })
        },
        outcomes.len() == state.pending.len() ==> {
            &&& run(state, round(closed, outcomes)).pending.to_multiset() == kept(
                state.pending,
                outcomes,
            )
            &&& last_command(state, round(closed, outcomes)) == (Command::<R>::Return {
                done: closed && forall|i: int|
                    0 <= i < outcomes.len() ==> #[trigger] outcomes[i] is Ready,
            })
        },
{
    lemma_round(state, closed, outcomes);
    lemma_kept_none(state.pending, outcomes);
}

proof fn lemma_kept_none<L, R>(pending: Seq<(Address, R)>, outcomes: Seq<Event<L, R>>)
    requires
        forall|i: int| 0 <= i < outcomes.len() ==> is_outcome(#[trigger] outcomes[i]),
    ensures
        kept(pending, outcomes).len() == 0 <==> forall|i: int|
            0 <= i < outcomes.len() ==> #[trigger] outcomes[i] is Ready,
    decreases outcomes.len(),
{
    if outcomes.len() > 0 {
        let earlier = outcomes.drop_last();
        assert forall|i: int| 0 <= i < earlier.len() implies is_outcome(
            #[trigger] earlier[i],
        ) by {
            assert(is_outcome(outcomes[i]));
        }
        lemma_kept_none(pending, earlier);
        assert(is_outcome(outcomes[outcomes.len() - 1]));
        if outcomes.last() is Ready {
            if forall|i: int| 0 <= i < earlier.len() ==> #[trigger] earlier[i] is Ready {
                assert forall|i: int| 0 <= i < outcomes.len() implies #[trigger] outcomes[
                    i
                ] is Ready by {
                    if i < earlier.len() {
                        assert(earlier[i] is Ready);
                    }
                }
            }
            if forall|i: int| 0 <= i < outcomes.len() ==> #[trigger] outcomes[i] is Ready {
                assert forall|i: int| 0 <= i < earlier.len() implies #[trigger] earlier[
                    i
                ] is Ready by {
                    assert(outcomes[i] is Ready);
                }
            }
        } else {
            assert(!(outcomes[outcomes.len() - 1] is Ready));
        }
    }
}

proof fn lemma_round<L, R>(
    state: HandlerState<L, R>,
    closed: bool,
    outcomes: Seq<Event<L, R>>,
)
    requires
        state.phase is Pulling,
        outcomes.len() <= state.pending.len(),
        forall|i: int| 0 <= i < outcomes.len() ==> is_outcome(#[trigger] outcomes[i]),
    ensures
        awaited(state, round(closed, outcomes)),
        ({
            let after = run(state, round(closed, outcomes));
            let n = state.pending.len() - outcomes.len();
            let others = kept(state.pending, outcomes);
            if n > 0 {
                let (address, request) = state.pending[n - 1];
                &&& to_pursue(after, state.pending, n - 1, others)
                &&& after.phase == (Phase::<L>::Pursuing { address, index: n - 1, closed })
                &&& last_command(state, round(closed, outcomes)) == (Command::Pursue {
                    address,
                    request,
                })
            } else {
                &&& after.pending.to_multiset() == others
                &&& last_command(state, round(closed, outcomes)) == (Command::<R>::Return {
                    done: closed && others.len() == 0,
                })
            }
        }),
    decreases outcomes.len(),
{
    broadcast use vstd::seq_lib::group_to_multiset_ensures;

    let pending = state.pending;
    let events = round(closed, outcomes);
    if outcomes.len() == 0 {
        assert(events.drop_last() =~= Seq::empty());
        assert(run(state, events.drop_last()) == state);
        assert(awaited(state, events.drop_last()));
        assert(pending.take(pending.len() as int) =~= pending);
        assert(pending.to_multiset().add(Multiset::empty()) =~= pending.to_multiset());
        lemma_pursue(state, closed, pending, pending.len() as int, Multiset::empty());
    } else {
        let earlier = outcomes.drop_last();
        assert forall|i: int| 0 <= i < earlier.len() implies is_outcome(
            #[trigger] earlier[i],
        ) by {
            assert(is_outcome(outcomes[i]));
        }
        lemma_round(state, closed, earlier);
        assert(events.drop_last() =~= round(closed, earlier));
        assert(events.last() == outcomes.last());
        assert(is_outcome(outcomes[outcomes.len() - 1]));
        let before = run(state, events.drop_last());
        let n = pending.len() - outcomes.len();
        let others = kept(pending, outcomes);
        match outcomes.last() {
            Event::Ready { info } => {
                let address = pending[n].0;
                let told = HandlerState {
                    cache: before.cache.insert(address@, info),
                    waiting: before.waiting.remove(address@),
                    ..before
                };
                lemma_pursue(told, closed, pending, n, others);
            },
            Event::Pending { request } => {
                let query = (pending[n].0, request);
                let back = HandlerState { pending: before.pending.push(query), ..before };
                assert(back.pending.take(n) =~= before.pending.take(n));
                assert(back.pending.to_multiset() =~= pending.take(n).to_multiset().add(others));
                lemma_pursue(back, closed, pending, n, others);
            },
            _ => {},
        }
    }
}

/// When a query about an address is done, the cache says of the address exactly what came of the
/// query, everyone who waits for the address is told exactly that, in the order in which they
/// asked, and nobody waits for it any more. Nothing else that may be pending matters, nor is
/// anything else changed in the cache or among those who wait.
pub proof fn law_finished_query_is_passed_on<L, R>(
    state: HandlerState<L, R>,
    pursued: Address,
    index: int,
    closed: bool,
    info: Info,
)
    requires
        state.phase == (Phase::<L>::Pursuing { address: pursued, index, closed }),
    ensures
        ({
            let (after, replies, _) = state.step(Event::Ready { info });
            &&& after.cache.contains_key(pursued@)
            &&& after.cache[pursued@] == info
            &&& forall|i: int| 0 <= i < replies.len() ==> (#[trigger] replies[i]).1 == info
            &&& state.waiting.contains_key(pursued@) ==> {
                &&& replies.len() == state.waiting[pursued@].len()
                &&& forall|i: int|
                    0 <= i < replies.len() ==> (#[trigger] replies[i]).0
                        == state.waiting[pursued@][i]
            }
            &&& !state.waiting.contains_key(pursued@) ==> replies.len() == 0
            &&& !after.waiting.contains_key(pursued@)
            &&& forall|other: Seq<u8>|
                other != pursued@ ==> {
                    &&& #[trigger] after.cache.contains_key(other) == state.cache.contains_key(
                        other,
                    )
                    &&& after.cache[other] == state.cache[other]
                    &&& after.waiting.contains_key(other) == state.waiting.contains_key(other)
                    &&& after.waiting[other] == state.waiting[other]
                }
        }),
{
    let (after, _, _) = state.step(Event::Ready { info });
    assert(after.cache =~= state.cache.insert(pursued@, info));
    assert(after.waiting =~= state.waiting.remove(pursued@));
}

/// A query that is not done changes neither the cache nor who waits, and nobody is told anything.
pub proof fn law_unfinished_query_changes_nothing<L, R>(state: HandlerState<L, R>, request: R)
    requires
        state.phase is Pursuing,
    ensures
        ({
            let (after, replies, _) = state.step(Event::Pending { request });
            &&& after.cache == state.cache
            &&& after.waiting == state.waiting
            &&& replies.len() == 0
        }),
{
}

/// A query about `address` is done at the event `i` of several, with the result `info`.
pub open spec fn is_done_at<L, R>(
    state: HandlerState<L, R>,
    events: Seq<Event<L, R>>,
    i: int,
    address: Seq<u8>,
    info: Info,
) -> bool {
    &&& events[i] == (Event::<L, R>::Ready { info })
    &&& run(state, events.take(i)).phase matches Phase::Pursuing { address: pursued, .. }
        && pursued@ == address
}

/// After any course of events the cache says of an address what came of the last query about it
/// that was done.
pub proof fn law_cache_has_the_last_result<L, R>(
    state: HandlerState<L, R>,
    events: Seq<Event<L, R>>,
    i: int,
    address: Seq<u8>,
    info: Info,
)
    requires
        awaited(state, events),
        0 <= i < events.len(),
        is_done_at(state, events, i, address, info),
        forall|j: int, later: Info|
            i < j < events.len() ==> !#[trigger] is_done_at(state, events, j, address, later),
    ensures
        run(state, events).cache.contains_key(address),
        run(state, events).cache[address] == info,
    decreases events.len(),
{
    let earlier = events.drop_last();
    let before = run(state, earlier);
    let n = events.len() - 1;
    assert(events.take(n) =~= earlier);
    if i == n {
        assert(events.last() == events[i]);
        match before.phase {
            Phase::Pursuing { address: pursued, index, closed } => {
                law_finished_query_is_passed_on(before, pursued, index, closed, info);
            },
            _ => {},
        }
    } else {
        assert(earlier.take(i) =~= events.take(i));
        assert forall|j: int, later: Info| i < j < earlier.len() implies !#[trigger] is_done_at(
            state,
            earlier,
            j,
            address,
            later,
        ) by {
            assert(earlier.take(j) =~= events.take(j));
            assert(!is_done_at(state, events, j, address, later));
        }
        law_cache_has_the_last_result(state, earlier, i, address, info);
        if let Event::Ready { info: later } = events.last() {
            assert(!is_done_at(state, events, n, address, later));
        }
        assert(before.awaits(events.last()));
        law_cache_grows(before, events.last(), address);
    }
}

/// A lookup of an address that is not known is kept until its query is ready. The query is then
/// pending, behind all others, and whoever asked waits behind all others who ask for the address.
pub proof fn law_query_is_started<L, R>(
    state: HandlerState<L, R>,
    address: Address,
    listener: L,
    request: R,
)
    requires
        state.phase is Pulling,
        !state.cache.contains_key(address@),
    ensures
        ({
            let (between, early, _) = state.step(Event::Incoming { address, listener });
            let (after, late, command) = between.step(Event::Started { request });
            let others = if state.waiting.contains_key(address@) {
                state.waiting[address@]
            } else {
                Seq::empty()
            };
            &&& early.len() == 0 && late.len() == 0
            &&& command == Command::<R>::Pull
            &&& after.phase is Pulling
            &&& after.pending == state.pending.push((address, request))
            &&& after.waiting == state.waiting.insert(address@, others.push(listener))
            &&& after.cache == state.cache
        }),
{
}

/// The driver can always do as it is told: what the handler awaits after a step is what comes of
/// the command, and nothing else.
pub proof fn law_command_is_what_is_awaited<L, R>(
    state: HandlerState<L, R>,
    event: Event<L, R>,
    next: Event<L, R>,
)
    requires
        state.awaits(event),
    ensures
        state.step(event).0.awaits(next) == match state.step(event).2 {
            Command::Pull => next is Incoming || next is Drained,
            Command::Query { .. } => next is Started,
            Command::Pursue { .. } => next is Ready || next is Pending,
            Command::Return { .. } => next is Wake,
        },
{
}

/// A handler that has not been driven yet knows nothing, has nothing to do and awaits a round; the
/// round begins with the queue.
pub proof fn law_start<L, R>(address: Seq<u8>, event: Event<L, R>)
    ensures
        ({
            let start = HandlerState::<L, R>::start();
            &&& !start.cache.contains_key(address)
            &&& !start.waiting.contains_key(address)
            &&& start.pending.len() == 0
            &&& start.awaits(event) <==> event is Wake
        }),
{
}

/// Waking a handler that is between rounds changes nothing but that it reads its queue.
pub proof fn law_wake<L, R>(state: HandlerState<L, R>)
    requires
        state.phase is Idle,
    ensures
        ({
            let (after, replies, command) = state.step(Event::Wake);
            &&& after == (HandlerState { phase: Phase::Pulling, ..state })
            &&& replies.len() == 0
            &&& command == Command::<R>::Pull
        }),
{
}

/// Reading the queue to its end changes neither the cache nor who waits, and nobody is told
/// anything.
pub proof fn law_drained_queue_changes_nothing<L, R>(state: HandlerState<L, R>, closed: bool)
    requires
        state.phase is Pulling,
    ensures
        ({
            let (after, replies, _) = state.step(Event::Drained { closed });
            &&& after.cache == state.cache
            &&& after.waiting == state.waiting
            &&& replies.len() == 0
        }),
{
}

/// A course of events leads where its events lead, one after the other.
pub proof fn law_run_is_step_by_step<L, R>(
    state: HandlerState<L, R>,
    events: Seq<Event<L, R>>,
    event: Event<L, R>,
)
    ensures
        run(state, Seq::<Event<L, R>>::empty()) == state,
        run(state, events.push(event)) == run(state, events).step(event).0,
        awaited(state, Seq::<Event<L, R>>::empty()),
        awaited(state, events.push(event)) <==> awaited(state, events) && run(
            state,
            events,
        ).awaits(event),
{
    assert(events.push(event).drop_last() =~= events);
}

} // verus!
