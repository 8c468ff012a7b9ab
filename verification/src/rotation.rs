//! How connections are spread over the providers of a service.

use vstd::arithmetic::div_mod::*;
use vstd::prelude::*;

use crate::service;
use crate::service::{OpenAsked, OpenEvent, ServiceView};

verus! {

/// `service` after `count` connections whose first provider opened a stream.
pub open spec fn after_connections<C>(service: ServiceView<C>, count: nat) -> ServiceView<C>
    decreases count,
{
    if count == 0 {
        service
    } else {
        let before = after_connections(service, (count - 1) as nat);
        service::open_step(service::open_step(before, OpenEvent::Start).0, OpenEvent::Opened).0
    }
}

/// The provider that the next connection is taken to.
pub open spec fn next_provider<C>(service: ServiceView<C>) -> OpenAsked {
    service::open_step(service, OpenEvent::Start).1
}

/// Connections go to one provider after the other, in their order, and start
/// again behind the last.
pub proof fn providers_take_turns<C>(service: ServiceView<C>, count: nat)
    requires
        service.providers.len() > 0,
    ensures
        after_connections(service, count) == (ServiceView {
            counter: service.counter + count,
            ..service
        }),
        next_provider(after_connections(service, count)) == OpenAsked::Open(
            (service.counter + count) % service.providers.len(),
        ),
    decreases count,
{
    if count > 0 {
        providers_take_turns(service, (count - 1) as nat);
    }
}

/// Of as many connections as there are providers, each provider gets exactly one.
pub proof fn each_provider_gets_a_turn<C>(service: ServiceView<C>, index: nat)
    requires
        index < service.providers.len(),
    ensures
        exists|k: nat|
            k < service.providers.len() && #[trigger] next_provider(after_connections(service, k))
                == OpenAsked::Open(index),
        forall|j: nat, k: nat|
            j < service.providers.len() && k < service.providers.len() && #[trigger] next_provider(
                after_connections(service, j),
            ) == OpenAsked::Open(index) && #[trigger] next_provider(after_connections(service, k))
                == OpenAsked::Open(index) ==> j == k,
{
    let len = service.providers.len() as int;
    let counter = service.counter as int;
    let k = ((index - counter) % len) as nat;
    providers_take_turns(service, k);
    assert((counter + k) % len == index) by {
        lemma_add_mod_noop_right(counter, index - counter, len);
        lemma_small_mod(index, len as nat);
    }
    assert(next_provider(after_connections(service, k)) == OpenAsked::Open(index));
    assert forall|i: nat, j: nat|
        i < service.providers.len() && j < service.providers.len() && #[trigger] next_provider(
            after_connections(service, i),
        ) == OpenAsked::Open(index) && #[trigger] next_provider(after_connections(service, j))
            == OpenAsked::Open(index) implies i == j by {
        providers_take_turns(service, i);
        providers_take_turns(service, j);
        lemma_mod_equivalence(counter + i, counter + j, len);
        if i != j {
            let d = if i < j { j - i } else { i - j };
            lemma_small_mod(d as nat, len as nat);
            if i < j {
                lemma_mod_equivalence(counter + j, counter + i, len);
            }
        }
    }
}

/// How a connection fares on `service` when just the providers of which `opens`
/// holds open a stream: the service then, and the provider that it is taken to.
/// It is told of each failure in turn, having been told to start.
pub open spec fn connection<C>(
    service: ServiceView<C>,
    asked: OpenAsked,
    opens: spec_fn(C) -> bool,
) -> (ServiceView<C>, Option<C>)
    decreases service.providers.len(),
{
    match asked {
        OpenAsked::Open(index) => if index >= service.providers.len() {
            (service, None)
        } else if opens(service.providers[index as int]) {
            (service, Some(service.providers[index as int]))
        } else {
            let (next, again) = service::open_step(service, OpenEvent::Failed(index as usize));
            if next.providers.len() < service.providers.len() {
                connection(next, again, opens)
            } else {
                (next, None)
            }
        },
        _ => (service, None),
    }
}

/// `providers` when `count` of them have failed, one after the other, each at its
/// turn, for a connection that came at the turn `counter`.
pub open spec fn after_failures<C>(providers: Seq<C>, counter: nat, count: nat) -> Seq<C>
    decreases count,
{
    if count == 0 || providers.len() == 0 {
        providers
    } else {
        after_failures(
            providers.remove((counter % providers.len()) as int),
            counter,
            (count - 1) as nat,
        )
    }
}

/// The provider that is tried once `count` have failed.
pub open spec fn tried<C>(providers: Seq<C>, counter: nat, count: nat) -> C {
    let left = after_failures(providers, counter, count);
    left[(counter % left.len()) as int]
}

/// How many providers are tried in vain before one opens a stream, or none is left.
pub open spec fn failures<C>(providers: Seq<C>, counter: nat, opens: spec_fn(C) -> bool) -> nat
    decreases providers.len(),
{
    let index = (counter % providers.len()) as int;
    if providers.len() == 0 || opens(providers[index]) {
        0
    } else if 0 <= index < providers.len() {
        1 + failures(providers.remove(index), counter, opens)
    } else {
        0
    }
}

proof fn lemma_failures<C>(providers: Seq<C>, counter: nat, opens: spec_fn(C) -> bool)
    ensures
        ({
            let count = failures(providers, counter, opens);
            &&& count <= providers.len()
            &&& after_failures(providers, counter, count).len() == providers.len() - count
            &&& forall|k: nat| k < count ==> !opens(#[trigger] tried(providers, counter, k))
            &&& count < providers.len() ==> opens(tried(providers, counter, count))
        }),
    decreases providers.len(),
{
    if providers.len() > 0 {
        let index = (counter % providers.len()) as int;
        let rest = providers.remove(index);
        if !opens(providers[index]) {
            lemma_failures(rest, counter, opens);
            let count = failures(providers, counter, opens);
            assert forall|k: nat| k < count implies !opens(
                #[trigger] tried(providers, counter, k),
            ) by {
                if k > 0 {
                    assert(tried(providers, counter, k) == tried(rest, counter, (k - 1) as nat));
                }
            }
            assert(tried(providers, counter, count) == tried(rest, counter, (count - 1) as nat));
        }
    }
}

proof fn lemma_connection<C>(service: ServiceView<C>, counter: nat, opens: spec_fn(C) -> bool)
    requires
        0 < service.providers.len() <= usize::MAX,
        service.counter == counter + 1,
    ensures
        ({
            let providers = service.providers;
            let asked = OpenAsked::Open(counter % providers.len());
            let (end, provider) = connection(service, asked, opens);
            let count = failures(providers, counter, opens);
            let left = after_failures(providers, counter, count);
            &&& end == (ServiceView {
                providers: left,
                counter: if count < providers.len() {
                    service.counter
                } else {
                    counter
                },
                ..service
            })
            &&& provider == if count < providers.len() {
                Some(tried(providers, counter, count))
            } else {
                None
            }
        }),
    decreases service.providers.len(),
{
    reveal_with_fuel(connection, 2);
    let providers = service.providers;
    let index = counter % providers.len();
    lemma_failures(providers, counter, opens);
    if !opens(providers[index as int]) {
        let rest = service::without(service, index);
        let count = failures(providers, counter, opens);
        lemma_failures(rest.providers, counter, opens);
        if rest.providers.len() > 0 {
            lemma_connection(service::turn(rest).0, counter, opens);
            assert(tried(providers, counter, count) == tried(
                rest.providers,
                counter,
                (count - 1) as nat,
            ));
        }
    }
}

/// A connection tries the provider whose turn it is. Those that it tries in vain,
/// and no others, leave the list, which keeps its order; after each the turn goes
/// round the list that is left. The connection is taken to the first that opens a
/// stream, and the turn is then passed on once. It is given up exactly if all
/// have been tried in vain.
pub proof fn connection_finds_a_provider<C>(service: ServiceView<C>, opens: spec_fn(C) -> bool)
    requires
        0 < service.providers.len() <= usize::MAX,
    ensures
        ({
            let (next, asked) = service::open_step(service, OpenEvent::Start);
            let (end, provider) = connection(next, asked, opens);
            let count = failures(service.providers, service.counter, opens);
            &&& count <= service.providers.len()
            &&& forall|k: nat|
                k < count ==> !opens(#[trigger] tried(service.providers, service.counter, k))
            &&& end.providers == after_failures(service.providers, service.counter, count)
            &&& end.providers.len() == service.providers.len() - count
            &&& if count < service.providers.len() {
                &&& provider == Some(tried(service.providers, service.counter, count))
                &&& opens(tried(service.providers, service.counter, count))
                &&& end.counter == service.counter + 1
            } else {
                &&& provider is None
                &&& end.counter == service.counter
            }
        }),
{
    lemma_failures(service.providers, service.counter, opens);
    lemma_connection(
        service::open_step(service, OpenEvent::Start).0,
        service.counter,
        opens,
    );
}

proof fn lemma_filter_remove<C>(items: Seq<C>, index: int, keep: spec_fn(C) -> bool)
    requires
        0 <= index < items.len(),
        !keep(items[index]),
    ensures
        items.remove(index).filter(keep) == items.filter(keep),
{
    let front = items.take(index);
    let back = items.skip(index + 1);
    let one = seq![items[index]];
    assert(items.remove(index) =~= front + back);
    assert(items =~= front + one + back);
    Seq::filter_distributes_over_add(front, back, keep);
    Seq::filter_distributes_over_add(front + one, back, keep);
    Seq::filter_distributes_over_add(front, one, keep);
    assert(one.filter(keep) =~= Seq::empty()) by {
        reveal_with_fuel(Seq::filter, 2);
        assert(one.drop_last() =~= Seq::empty());
    }
    assert(front.filter(keep) + Seq::<C>::empty() =~= front.filter(keep));
}

proof fn lemma_left<C>(providers: Seq<C>, counter: nat, count: nat, at: int)
    requires
        0 <= at < after_failures(providers, counter, count).len(),
    ensures
        providers.contains(after_failures(providers, counter, count)[at]),
    decreases count,
{
    if count > 0 && providers.len() > 0 {
        let index = (counter % providers.len()) as int;
        let rest = providers.remove(index);
        lemma_left(rest, counter, (count - 1) as nat, at);
        let c = after_failures(providers, counter, count)[at];
        let i = choose|i: int| 0 <= i < rest.len() && rest[i] == c;
        if i < index {
            assert(providers[i] == c);
        } else {
            assert(providers[i + 1] == c);
        }
    }
}

proof fn lemma_left_open<C>(providers: Seq<C>, counter: nat, opens: spec_fn(C) -> bool)
    ensures
        after_failures(providers, counter, failures(providers, counter, opens)).filter(opens)
            == providers.filter(opens),
    decreases providers.len(),
{
    if providers.len() > 0 {
        let index = (counter % providers.len()) as int;
        if !opens(providers[index]) {
            lemma_filter_remove(providers, index, opens);
            lemma_left_open(providers.remove(index), counter, opens);
        }
    }
}

/// Providers that open streams are never dropped and keep their order, and a
/// connection is given up only if there is none.
pub proof fn working_providers_stay<C>(service: ServiceView<C>, opens: spec_fn(C) -> bool)
    requires
        0 < service.providers.len() <= usize::MAX,
    ensures
        ({
            let (next, asked) = service::open_step(service, OpenEvent::Start);
            let (end, provider) = connection(next, asked, opens);
            &&& end.providers.filter(opens) == service.providers.filter(opens)
            &&& provider is None <==> forall|c: C| service.providers.contains(c) ==> !opens(c)
        }),
{
    let (next, asked) = service::open_step(service, OpenEvent::Start);
    let (end, provider) = connection(next, asked, opens);
    connection_finds_a_provider(service, opens);
    lemma_left_open(service.providers, service.counter, opens);
    if provider is None {
        assert forall|c: C| service.providers.contains(c) implies !opens(c) by {
            if opens(c) {
                broadcast use vstd::seq_lib::group_filter_ensures;

                let i = choose|i: int|
                    0 <= i < service.providers.len() && service.providers[i] == c;
                assert(service.providers.filter(opens).contains(service.providers[i]));
                assert(end.providers.filter(opens).len() == 0) by {
                    reveal(Seq::filter);
                }
            }
        }
    } else {
        let count = failures(service.providers, service.counter, opens);
        let at = service.counter % end.providers.len();
        lemma_left(service.providers, service.counter, count, at as int);
    }
}

} // verus!
