//! The guarantees the mediator gives its subscribers, proved once and for
//! all over the fan-out specifications that the mediator's contracts are
//! written in: [`fanout_log`] says who a completed production notifies and
//! in which order, [`survivors`] who stays subscribed afterwards.

use vstd::prelude::*;

use crate::consumer::Delivery;
use crate::consumer::Outcome;
use crate::mediator::fanout_log;
use crate::mediator::survivors;
use crate::mediator::Mode;
use crate::mediator::SubView;

verus! {

/// How often the identity `o` occurs in a sequence of identities.
pub open spec fn occurrences(ids: Seq<u128>, o: u128) -> nat
    decreases ids.len(),
{
    if ids.len() == 0 {
        0
    } else {
        occurrences(ids.drop_last(), o) + if ids.last() == o {
            1nat
        } else {
            0nat
        }
    }
}

/// How many notifications of a log are addressed to the handle `h`.
pub open spec fn deliveries_to(log: Seq<Delivery>, h: int) -> nat
    decreases log.len(),
{
    if log.len() == 0 {
        0
    } else {
        deliveries_to(log.drop_last(), h) + if log.last().consumer == h {
            1nat
        } else {
            0nat
        }
    }
}

/// How many subscriptions of a list are held by the handle `h`.
pub open spec fn subs_for(subs: Seq<SubView>, h: int) -> nat
    decreases subs.len(),
{
    if subs.len() == 0 {
        0
    } else {
        subs_for(subs.drop_last(), h) + if subs.last().consumer == h {
            1nat
        } else {
            0nat
        }
    }
}

/// How many on-change subscriptions of a list are held by the handle `h`.
pub open spec fn on_change_for(subs: Seq<SubView>, h: int) -> nat
    decreases subs.len(),
{
    if subs.len() == 0 {
        0
    } else {
        on_change_for(subs.drop_last(), h) + if subs.last().consumer == h
            && subs.last().mode is OnChange {
            1nat
        } else {
            0nat
        }
    }
}

/// The notifications of a log that concern the identity `o`, in order.
pub open spec fn for_id(log: Seq<Delivery>, o: u128) -> Seq<Delivery>
    decreases log.len(),
{
    if log.len() == 0 {
        Seq::empty()
    } else {
        let rest = for_id(log.drop_last(), o);
        if log.last().id == o {
            rest.push(log.last())
        } else {
            rest
        }
    }
}

/// Projecting to one identity distributes over concatenation.
pub proof fn lemma_for_id_add(a: Seq<Delivery>, b: Seq<Delivery>, o: u128)
    ensures
        for_id(a + b, o) == for_id(a, o) + for_id(b, o),
    decreases b.len(),
{
    if b.len() == 0 {
        assert(a + b =~= a);
        assert(for_id(a, o) + for_id(b, o) =~= for_id(a, o));
    } else {
        lemma_for_id_add(a, b.drop_last(), o);
        assert((a + b).drop_last() =~= a + b.drop_last());
        assert((a + b).last() == b.last());
        if b.last().id == o {
            assert(for_id(a, o) + for_id(b, o) =~= (for_id(a, o) + for_id(
                b.drop_last(),
                o,
            )).push(b.last()));
        }
    }
}

/// A fan-out for one identity concerns that identity alone.
pub proof fn lemma_fanout_for_id(
    id: u128,
    subs: Seq<SubView>,
    live: Set<int>,
    outcome: Outcome,
    o: u128,
)
    ensures
        for_id(fanout_log(id, subs, live, outcome), o) == if o == id {
            fanout_log(id, subs, live, outcome)
        } else {
            Seq::<Delivery>::empty()
        },
    decreases subs.len(),
{
    if subs.len() > 0 {
        lemma_fanout_for_id(id, subs.drop_last(), live, outcome, o);
        let rest = fanout_log(id, subs.drop_last(), live, outcome);
        if live.contains(subs.last().consumer) {
            let d = Delivery { id, consumer: subs.last().consumer, outcome };
            assert(fanout_log(id, subs, live, outcome) == rest.push(d));
            assert(rest.push(d).drop_last() =~= rest);
            assert(rest.push(d).last() == d);
        }
    }
}

/// One fan-out notifies a live handle exactly as often as it is subscribed,
/// and a dangling handle not at all.
pub proof fn lemma_fanout_count(
    id: u128,
    subs: Seq<SubView>,
    live: Set<int>,
    outcome: Outcome,
    h: int,
)
    ensures
        deliveries_to(fanout_log(id, subs, live, outcome), h) == if live.contains(h) {
            subs_for(subs, h)
        } else {
            0nat
        },
    decreases subs.len(),
{
    if subs.len() > 0 {
        lemma_fanout_count(id, subs.drop_last(), live, outcome, h);
        let rest = fanout_log(id, subs.drop_last(), live, outcome);
        if live.contains(subs.last().consumer) {
            let d = Delivery { id, consumer: subs.last().consumer, outcome };
            assert(fanout_log(id, subs, live, outcome) == rest.push(d));
            assert(rest.push(d).drop_last() =~= rest);
            assert(rest.push(d).last() == d);
        }
    }
}

/// What is left subscribed after a fan-out: for a live handle exactly its
/// on-change subscriptions, for a dangling handle nothing.
pub proof fn lemma_survivors_count(subs: Seq<SubView>, live: Set<int>, h: int)
    ensures
        subs_for(survivors(subs, live), h) == if live.contains(h) {
            on_change_for(subs, h)
        } else {
            0nat
        },
        on_change_for(survivors(subs, live), h) == if live.contains(h) {
            on_change_for(subs, h)
        } else {
            0nat
        },
    decreases subs.len(),
{
    if subs.len() > 0 {
        lemma_survivors_count(subs.drop_last(), live, h);
        let rest = survivors(subs.drop_last(), live);
        let s = subs.last();
        if s.mode is OnChange && live.contains(s.consumer) {
            assert(survivors(subs, live) == rest.push(s));
            assert(rest.push(s).drop_last() =~= rest);
            assert(rest.push(s).last() == s);
        }
    }
}

/// A handle all of whose subscriptions are one-shot holds no on-change
/// subscription.
pub proof fn lemma_all_one_shot(subs: Seq<SubView>, h: int)
    requires
        forall|k: int| 0 <= k < subs.len() && subs[k].consumer == h ==> subs[k].mode is OneShot,
    ensures
        on_change_for(subs, h) == 0,
    decreases subs.len(),
{
    if subs.len() > 0 {
        assert(forall|k: int|
            0 <= k < subs.drop_last().len() && subs.drop_last()[k].consumer == h
                ==> subs.drop_last()[k].mode is OneShot);
        lemma_all_one_shot(subs.drop_last(), h);
    }
}

/// One-shot exactly-once: a live subscriber holding a single, one-shot
/// subscription is notified exactly once by the production's fan-out; it
/// keeps no subscription, so any later fan-out — over the survivors, with
/// any outcome and any then-current liveness — reaches it no more.
pub proof fn lemma_one_shot_exactly_once(
    id: u128,
    subs: Seq<SubView>,
    live: Set<int>,
    outcome: Outcome,
    h: int,
    id2: u128,
    live2: Set<int>,
    outcome2: Outcome,
)
    requires
        live.contains(h),
        subs_for(subs, h) == 1,
        forall|k: int| 0 <= k < subs.len() && subs[k].consumer == h ==> subs[k].mode is OneShot,
    ensures
        deliveries_to(fanout_log(id, subs, live, outcome), h) == 1,
        subs_for(survivors(subs, live), h) == 0,
        deliveries_to(fanout_log(id2, survivors(subs, live), live2, outcome2), h) == 0,
{
    lemma_fanout_count(id, subs, live, outcome, h);
    lemma_all_one_shot(subs, h);
    lemma_survivors_count(subs, live, h);
    lemma_fanout_count(id2, survivors(subs, live), live2, outcome2, h);
}

/// Change persistence: a live subscriber holding a single on-change
/// subscription is notified once per completed production and stays
/// subscribed the same way afterwards, so the next production — whatever
/// its outcome — notifies it once more, for as long as its handle stays
/// live.
pub proof fn lemma_on_change_persists(
    id: u128,
    subs: Seq<SubView>,
    live: Set<int>,
    outcome: Outcome,
    h: int,
    id2: u128,
    outcome2: Outcome,
)
    requires
        live.contains(h),
        subs_for(subs, h) == 1,
        on_change_for(subs, h) == 1,
    ensures
        deliveries_to(fanout_log(id, subs, live, outcome), h) == 1,
        subs_for(survivors(subs, live), h) == 1,
        on_change_for(survivors(subs, live), h) == 1,
        deliveries_to(fanout_log(id2, survivors(subs, live), live, outcome2), h) == 1,
{
    lemma_fanout_count(id, subs, live, outcome, h);
    lemma_survivors_count(subs, live, h);
    lemma_fanout_count(id2, survivors(subs, live), live, outcome2, h);
    lemma_survivors_count(survivors(subs, live), live, h);
}

/// Dangling tolerance: a fan-out delivers nothing to a handle that no
/// longer resolves, and silently discards its subscriptions.
pub proof fn lemma_dangling_pruned(
    id: u128,
    subs: Seq<SubView>,
    live: Set<int>,
    outcome: Outcome,
    h: int,
)
    requires
        !live.contains(h),
    ensures
        deliveries_to(fanout_log(id, subs, live, outcome), h) == 0,
        subs_for(survivors(subs, live), h) == 0,
{
    lemma_fanout_count(id, subs, live, outcome, h);
    lemma_survivors_count(subs, live, h);
}

/// Ordering: when every subscriber of an identity is live, one fan-out
/// notifies each of them exactly once, in subscription order, all with the
/// production's outcome.
pub proof fn lemma_fanout_order(id: u128, subs: Seq<SubView>, live: Set<int>, outcome: Outcome)
    requires
        forall|k: int| 0 <= k < subs.len() ==> live.contains(#[trigger] subs[k].consumer),
    ensures
        fanout_log(id, subs, live, outcome).len() == subs.len(),
        forall|k: int| 0 <= k < subs.len() ==> (#[trigger] fanout_log(id, subs, live, outcome)[k]
            == (Delivery { id, consumer: subs[k].consumer, outcome })),
    decreases subs.len(),
{
    if subs.len() > 0 {
        assert(forall|k: int|
            0 <= k < subs.drop_last().len() ==> live.contains(
                #[trigger] subs.drop_last()[k].consumer,
            ));
        lemma_fanout_order(id, subs.drop_last(), live, outcome);
        assert(live.contains(subs.last().consumer));
    }
}

} // verus!
