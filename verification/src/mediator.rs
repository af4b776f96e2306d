//! The coordinator between producers and consumers.
//!
//! The mediator tracks declared resources, queues consumer subscriptions,
//! deduplicates in-flight production, and drives notification.  Production
//! is demand-driven: declaring a resource does nothing by itself, the first
//! consumer moves it to the producing state, and [`Mediator::run`] asks the
//! [`Host`] for content and fans the outcome out to subscribers in
//! subscription order.

use vstd::prelude::*;

use crate::consumer::Consumer;
use crate::consumer::ConsumerRef;
use crate::consumer::ConsumerRegistry;
use crate::consumer::Delivery;
use crate::consumer::Outcome;
use crate::host::Host;
use crate::resource::Resource;
use crate::resource::ResourceId;
use crate::resource::ResourceView;

verus! {

/// Whether a subscription is served once and then removed, or on every
/// successful production until its consumer is gone.
#[derive(Clone, Copy, Debug, PartialEq, Eq, Structural)]
pub enum Mode {
    OneShot,
    OnChange,
}

/// One queued subscription: a non-owning consumer handle and its mode.
#[derive(Clone, Copy)]
pub struct Subscription {
    pub consumer: ConsumerRef,
    pub mode: Mode,
}

/// The mathematical content of a [`Subscription`].
pub struct SubView {
    pub consumer: int,
    pub mode: Mode,
}

/// Where a declared resource stands in its production life cycle.
pub enum ProductionState {
    /// Known, with no production asked for yet.
    Declared,
    /// A production is in flight; at most one ever is, per identity.
    Producing,
    /// The last production succeeded and its value is retained.
    Resolved(Resource),
    /// The last production failed; a normal, recoverable state pending the
    /// next triggering event.
    Failed(String),
    /// A previously resolved value was invalidated by
    /// [`Mediator::invalidate`]; the next consumer triggers production
    /// anew.
    Stale,
}

/// The mathematical content of a [`ProductionState`].
pub enum StateView {
    Declared,
    Producing,
    Resolved(ResourceView),
    Failed(Seq<char>),
    Stale,
}

/// One tracked resource: its identity, its production state, and its
/// subscribers in subscription order.
struct ResourceRecord {
    id: ResourceId,
    state: ProductionState,
    subs: Vec<Subscription>,
}

/// The view of a production state.
pub open spec fn state_view(s: ProductionState) -> StateView {
    match s {
        ProductionState::Declared => StateView::Declared,
        ProductionState::Producing => StateView::Producing,
        ProductionState::Resolved(r) => StateView::Resolved(r@),
        ProductionState::Failed(m) => StateView::Failed(m@),
        ProductionState::Stale => StateView::Stale,
    }
}

/// The view of one subscription.
pub open spec fn sub_view(s: Subscription) -> SubView {
    SubView { consumer: s.consumer@, mode: s.mode }
}

/// The views of a subscription list, in order.
pub open spec fn sub_views(subs: Seq<Subscription>) -> Seq<SubView> {
    subs.map_values(|s: Subscription| sub_view(s))
}

/// The outcome a completed production notifies subscribers with.
pub open spec fn outcome_of(result: Result<Resource, String>) -> Outcome {
    match result {
        Ok(r) => Outcome::Success(r@),
        Err(m) => Outcome::Error(m@),
    }
}

/// The state a completed production leaves behind.
pub open spec fn completed_state(result: Result<Resource, String>) -> StateView {
    match result {
        Ok(r) => StateView::Resolved(r@),
        Err(m) => StateView::Failed(m@),
    }
}

/// The content of a resolved state.
pub open spec fn resolved_view(s: StateView) -> ResourceView {
    match s {
        StateView::Resolved(r) => r,
        _ => arbitrary(),
    }
}

/// The notifications one fan-out delivers: one per subscriber whose handle
/// is live, in subscription order, all carrying the same outcome.
pub open spec fn fanout_log(id: u128, subs: Seq<SubView>, live: Set<int>, outcome: Outcome)
    -> Seq<Delivery>
    decreases subs.len(),
{
    if subs.len() == 0 {
        Seq::empty()
    } else {
        let rest = fanout_log(id, subs.drop_last(), live, outcome);
        if live.contains(subs.last().consumer) {
            rest.push(Delivery { id, consumer: subs.last().consumer, outcome })
        } else {
            rest
        }
    }
}

/// Who stays subscribed after a completed production: the on-change
/// subscribers whose handles are still live, in their original order.
/// One-shot subscribers are gone — notified or dangling — and dangling
/// on-change subscriptions are pruned.
pub open spec fn survivors(subs: Seq<SubView>, live: Set<int>) -> Seq<SubView>
    decreases subs.len(),
{
    if subs.len() == 0 {
        Seq::empty()
    } else {
        let rest = survivors(subs.drop_last(), live);
        if subs.last().mode is OnChange && live.contains(subs.last().consumer) {
            rest.push(subs.last())
        } else {
            rest
        }
    }
}

/// The one-shot subscriptions of a list, in order.
pub open spec fn one_shots(subs: Seq<SubView>) -> Seq<SubView>
    decreases subs.len(),
{
    if subs.len() == 0 {
        Seq::empty()
    } else {
        let rest = one_shots(subs.drop_last());
        if subs.last().mode is OneShot {
            rest.push(subs.last())
        } else {
            rest
        }
    }
}

/// The on-change subscriptions of a list, in order.
pub open spec fn on_change_only(subs: Seq<SubView>) -> Seq<SubView>
    decreases subs.len(),
{
    if subs.len() == 0 {
        Seq::empty()
    } else {
        let rest = on_change_only(subs.drop_last());
        if subs.last().mode is OnChange {
            rest.push(subs.last())
        } else {
            rest
        }
    }
}

/// How one pass of the run loop changes one identity, given the set of live
/// consumer handles when the pass began: a producing identity is completed
/// — resolved or failed, as the host answered — and its fan-out leaves only
/// the live on-change subscribers; a resolved identity keeps its value and
/// serves its queued one-shot subscribers from the cache; every other
/// identity is untouched.
pub open spec fn run_effect(
    old_state: StateView,
    old_subs: Seq<SubView>,
    new_state: StateView,
    new_subs: Seq<SubView>,
    live: Set<int>,
) -> bool {
    match old_state {
        StateView::Producing => (new_state is Resolved || new_state is Failed)
            && new_subs == survivors(old_subs, live),
        StateView::Resolved(_) => new_state == old_state && new_subs == on_change_only(old_subs),
        _ => new_state == old_state && new_subs == old_subs,
    }
}

/// The outcome a completed production's fan-out carried, read off the
/// state it left behind.
pub open spec fn outcome_view(new_state: StateView) -> Outcome {
    match new_state {
        StateView::Resolved(r) => Outcome::Success(r),
        StateView::Failed(m) => Outcome::Error(m),
        _ => arbitrary(),
    }
}

/// The notifications one run-loop pass delivers for one identity, given
/// where the identity stood before the pass, where it stands after, and
/// which handles were live: a completed production notifies every live
/// subscriber with its outcome, a cached resolved value is served to the
/// live queued one-shot subscribers, and nothing else is delivered.
pub open spec fn run_deliveries(
    o: u128,
    old_state: StateView,
    old_subs: Seq<SubView>,
    new_state: StateView,
    live: Set<int>,
) -> Seq<Delivery> {
    match old_state {
        StateView::Producing => fanout_log(o, old_subs, live, outcome_view(new_state)),
        StateView::Resolved(r) => fanout_log(o, one_shots(old_subs), live, Outcome::Success(r)),
        _ => Seq::empty(),
    }
}

/// The identities whose production is in flight, in record order.
spec fn producing_ids(rs: Seq<ResourceRecord>) -> Seq<u128>
    decreases rs.len(),
{
    if rs.len() == 0 {
        Seq::empty()
    } else {
        let rest = producing_ids(rs.drop_last());
        if rs.last().state is Producing {
            rest.push(rs.last().id@)
        } else {
            rest
        }
    }
}

/// What one run-loop pass has appended to the delivery log after handling
/// the first `n` records: the per-record delivery blocks, in record order.
spec fn blocks_upto(
    orecs: Seq<ResourceRecord>,
    nrecs: Seq<ResourceRecord>,
    live: Set<int>,
    n: int,
) -> Seq<Delivery>
    decreases n,
{
    if n <= 0 {
        Seq::empty()
    } else {
        blocks_upto(orecs, nrecs, live, n - 1) + run_deliveries(
            orecs[n - 1].id@,
            state_view(orecs[n - 1].state),
            sub_views(orecs[n - 1].subs@),
            state_view(nrecs[n - 1].state),
            live,
        )
    }
}

/// The blocks only depend on the records already handled.
proof fn lemma_blocks_agree(
    orecs: Seq<ResourceRecord>,
    n1: Seq<ResourceRecord>,
    n2: Seq<ResourceRecord>,
    live: Set<int>,
    n: int,
)
    requires
        forall|j: int| 0 <= j < n ==> n1[j] == n2[j],
    ensures
        blocks_upto(orecs, n1, live, n) == blocks_upto(orecs, n2, live, n),
    decreases n,
{
    if n > 0 {
        lemma_blocks_agree(orecs, n1, n2, live, n - 1);
    }
}

/// Projecting the blocks of a pass to one identity gives that identity's
/// own delivery block, and nothing where no record holds the identity.
proof fn lemma_blocks_for_id(
    orecs: Seq<ResourceRecord>,
    nrecs: Seq<ResourceRecord>,
    live: Set<int>,
    n: int,
    o: u128,
)
    requires
        distinct_ids(orecs),
        n <= orecs.len(),
    ensures
        (forall|j: int| 0 <= j < n ==> orecs[j].id@ != o) ==> crate::laws::for_id(
            blocks_upto(orecs, nrecs, live, n),
            o,
        ) == Seq::<Delivery>::empty(),
        forall|j: int| 0 <= j < n && orecs[j].id@ == o ==> crate::laws::for_id(
            blocks_upto(orecs, nrecs, live, n),
            o,
        ) == run_deliveries(
            o,
            state_view(orecs[j].state),
            sub_views(orecs[j].subs@),
            state_view(nrecs[j].state),
            live,
        ),
    decreases n,
{
    if n > 0 {
        lemma_blocks_for_id(orecs, nrecs, live, n - 1, o);
        let b1 = blocks_upto(orecs, nrecs, live, n - 1);
        let o1 = orecs[n - 1].id@;
        let block = run_deliveries(
            o1,
            state_view(orecs[n - 1].state),
            sub_views(orecs[n - 1].subs@),
            state_view(nrecs[n - 1].state),
            live,
        );
        crate::laws::lemma_for_id_add(b1, block, o);
        match state_view(orecs[n - 1].state) {
            StateView::Producing => {
                crate::laws::lemma_fanout_for_id(
                    o1,
                    sub_views(orecs[n - 1].subs@),
                    live,
                    outcome_view(state_view(nrecs[n - 1].state)),
                    o,
                );
            },
            StateView::Resolved(r) => {
                crate::laws::lemma_fanout_for_id(
                    o1,
                    one_shots(sub_views(orecs[n - 1].subs@)),
                    live,
                    Outcome::Success(r),
                    o,
                );
            },
            _ => {},
        }
        if o1 == o {
            assert forall|j: int| 0 <= j < n - 1 implies orecs[j].id@ != o by {
                assert(orecs[j].id@ != orecs[n - 1].id@);
            }
            assert(crate::laws::for_id(b1, o) == Seq::<Delivery>::empty());
            assert(crate::laws::for_id(blocks_upto(orecs, nrecs, live, n), o) =~= block);
        } else {
            assert(crate::laws::for_id(block, o) == Seq::<Delivery>::empty());
            assert(crate::laws::for_id(blocks_upto(orecs, nrecs, live, n), o) =~= crate::laws::for_id(
                b1,
                o,
            ));
        }
    }
}

/// One record per identity.
spec fn distinct_ids(rs: Seq<ResourceRecord>) -> bool {
    forall|i: int, j: int|
        0 <= i < rs.len() && 0 <= j < rs.len() && i != j ==> rs[i].id@ != rs[j].id@
}

/// Under distinct identities, an identity whose production is in flight
/// stands in the producing order exactly once, any other not at all.
proof fn lemma_producing_count(rs: Seq<ResourceRecord>, o: u128)
    requires
        distinct_ids(rs),
    ensures
        crate::laws::occurrences(producing_ids(rs), o) == if exists|j: int|
            0 <= j < rs.len() && rs[j].id@ == o && (#[trigger] rs[j].state) is Producing {
            1nat
        } else {
            0nat
        },
    decreases rs.len(),
{
    if rs.len() > 0 {
        let rs0 = rs.drop_last();
        let r = rs.last();
        assert(distinct_ids(rs0));
        lemma_producing_count(rs0, o);
        let rest = producing_ids(rs0);
        if r.state is Producing {
            assert(producing_ids(rs) == rest.push(r.id@));
            assert(rest.push(r.id@).drop_last() =~= rest);
            assert(rest.push(r.id@).last() == r.id@);
        }
        if r.id@ == o && r.state is Producing {
            assert forall|j: int|
                0 <= j < rs0.len() implies !(rs0[j].id@ == o
                    && (#[trigger] rs0[j].state) is Producing) by {
                assert(rs[j].id@ != rs[rs.len() - 1].id@);
            }
            assert(rs[rs.len() - 1].id@ == o && rs[rs.len() - 1].state is Producing);
        } else {
            if exists|j: int|
                0 <= j < rs.len() && rs[j].id@ == o && (#[trigger] rs[j].state) is Producing {
                let j = choose|j: int|
                    0 <= j < rs.len() && rs[j].id@ == o && (#[trigger] rs[j].state)
                        is Producing;
                assert(j != rs.len() - 1);
                assert(rs0[j].id@ == o && rs0[j].state is Producing);
            } else {
                assert forall|j: int|
                    0 <= j < rs0.len() implies !(rs0[j].id@ == o
                        && (#[trigger] rs0[j].state) is Producing) by {
                    assert(!(rs[j].id@ == o && rs[j].state is Producing));
                }
            }
        }
    }
}

/// The coordinator.  Owns the canonical copy of every resolved resource and
/// the subscription bookkeeping; consumers live elsewhere, behind handles.
pub struct Mediator {
    records: Vec<ResourceRecord>,
}

impl Mediator {
    /// Type validity: one record per identity.
    pub closed spec fn wf(self) -> bool {
        distinct_ids(self.records@)
    }

    /// Dedup invariant: a run-loop pass asks the host for each identity
    /// whose production is in flight exactly once, and for no other — see
    /// the `produced` clause of [`Mediator::run`] — however many
    /// subscribers joined while the production was pending.
    pub proof fn lemma_single_flight(self, o: u128)
        requires
            self.wf(),
        ensures
            crate::laws::occurrences(self.producing_order(), o) == if self.has(o)
                && self.state_of(o) is Producing {
                1nat
            } else {
                0nat
            },
    {
        lemma_producing_count(self.records@, o);
        if self.has(o) {
            self.lemma_idx(o);
            let j = self.idx_of(o);
            if self.state_of(o) is Producing {
                assert(self.records@[j].id@ == o && self.records@[j].state is Producing);
            } else {
                assert forall|k: int|
                    0 <= k < self.records@.len() implies !(self.records@[k].id@ == o
                        && (#[trigger] self.records@[k].state) is Producing) by {
                    if self.records@[k].id@ == o {
                        assert(k == j) by {
                            if k != j {
                                assert(self.records@[k].id@ != self.records@[j].id@);
                            }
                        }
                    }
                }
            }
        } else {
            assert forall|k: int|
                0 <= k < self.records@.len() implies !(self.records@[k].id@ == o
                    && (#[trigger] self.records@[k].state) is Producing) by {
                assert(!self.has(o));
            }
        }
    }

    /// Whether `id` is declared (explicitly or implicitly).
    pub closed spec fn has(self, id: u128) -> bool {
        exists|i: int| 0 <= i < self.records@.len() && self.records@[i].id@ == id
    }

    /// The index of the record for `id`; meaningful when `has(id)` holds.
    pub closed spec fn idx_of(self, id: u128) -> int {
        choose|i: int| 0 <= i < self.records@.len() && self.records@[i].id@ == id
    }

    /// The production state of `id`; meaningful when `has(id)` holds.
    pub closed spec fn state_of(self, id: u128) -> StateView {
        state_view(self.records@[self.idx_of(id)].state)
    }

    /// The subscribers of `id` in subscription order; meaningful when
    /// `has(id)` holds.
    pub closed spec fn subs_of(self, id: u128) -> Seq<SubView> {
        sub_views(self.records@[self.idx_of(id)].subs@)
    }

    proof fn lemma_idx(self, id: u128)
        requires
            self.has(id),
        ensures
            0 <= self.idx_of(id) < self.records@.len(),
            self.records@[self.idx_of(id)].id@ == id,
    {
    }

    /// Under well-formedness the record at a position is the record its
    /// identity resolves to.
    proof fn lemma_idx_unique(self, i: int)
        requires
            self.wf(),
            0 <= i < self.records@.len(),
        ensures
            self.has(self.records@[i].id@),
            self.idx_of(self.records@[i].id@) == i,
    {
        assert(self.has(self.records@[i].id@));
        self.lemma_idx(self.records@[i].id@);
    }

    /// A mediator with nothing declared.
    pub fn new() -> (r: Mediator)
        ensures
            r.wf(),
            forall|id: u128| !r.has(id),
    {
        Mediator { records: Vec::new() }
    }

    /// The first (under well-formedness: the only) record index for `id`.
    fn find_record(&self, id: &ResourceId) -> (r: Option<usize>)
        ensures
            match r {
                Some(i) => i < self.records@.len() && self.records@[i as int].id@ == id@,
                None => !self.has(id@),
            },
    {
        let mut i: usize = 0;
        while i < self.records.len()
            invariant
                i <= self.records@.len(),
                forall|j: int| 0 <= j < i ==> self.records@[j].id@ != id@,
            decreases self.records@.len() - i,
        {
            let hit = self.records[i].id == *id;
            proof {
                crate::resource::lemma_id_eq(self.records@[i as int].id, *id);
            }
            if hit {
                return Some(i);
            }
            i += 1;
        }
        None
    }

    /// Registers `id` as known.  Idempotent: declaring a declared identity
    /// changes nothing.  Declaration alone never triggers production.
    pub fn declare_resource(&mut self, id: ResourceId)
        requires
            old(self).wf(),
        ensures
            final(self).wf(),
            final(self).has(id@),
            old(self).has(id@) ==> *final(self) == *old(self),
            !old(self).has(id@) ==> final(self).state_of(id@) is Declared
                && final(self).subs_of(id@) == Seq::<SubView>::empty(),
            forall|o: u128| o != id@ ==> #[trigger] final(self).has(o) == old(self).has(o),
            forall|o: u128| o != id@ && old(self).has(o)
                ==> final(self).state_of(o) == old(self).state_of(o)
                    && final(self).subs_of(o) == old(self).subs_of(o),
    {
        match self.find_record(&id) {
            Some(_) => {},
            None => {
                self.records.push(
                    ResourceRecord { id, state: ProductionState::Declared, subs: Vec::new() },
                );
                proof {
                    let n = old(self).records@.len() as int;
                    assert(forall|j: int| 0 <= j < n ==> old(self).records@[j].id@ != id@);
                    assert(self.records@[n].id@ == id@);
                    assert(self.wf());
                    self.lemma_idx_unique(n);
                    assert(self.subs_of(id@) =~= Seq::<SubView>::empty());
                    assert forall|o: u128| o != id@ implies #[trigger] self.has(o)
                        == old(self).has(o) by {
                        if old(self).has(o) {
                            old(self).lemma_idx(o);
                            let i = old(self).idx_of(o);
                            assert(self.records@[i].id@ == o);
                        }
                        if self.has(o) {
                            self.lemma_idx(o);
                            let i = self.idx_of(o);
                            assert(i != n);
                            assert(old(self).records@[i].id@ == o);
                        }
                    }
                    assert forall|o: u128| o != id@ && old(self).has(o) implies
                        self.state_of(o) == old(self).state_of(o)
                            && self.subs_of(o) == old(self).subs_of(o) by {
                        old(self).lemma_idx(o);
                        let i = old(self).idx_of(o);
                        self.lemma_idx_unique(i);
                    }
                }
            },
        }
    }
    /// Common subscription step.  An unknown identity is implicitly
    /// declared.  A resolved value stays resolved (the pending subscription
    /// is served from the cache at the next run-loop tick); any other state
    /// moves to producing — in particular an identity already producing
    /// merely gains a subscriber and never a second in-flight production.
    fn subscribe(&mut self, id: ResourceId, consumer: ConsumerRef, mode: Mode)
        requires
            old(self).wf(),
        ensures
            final(self).wf(),
            final(self).has(id@),
            final(self).subs_of(id@) == (if old(self).has(id@) {
                old(self).subs_of(id@)
            } else {
                Seq::<SubView>::empty()
            }).push(SubView { consumer: consumer@, mode }),
            final(self).state_of(id@) == (if old(self).has(id@) && old(self).state_of(id@)
                is Resolved {
                old(self).state_of(id@)
            } else {
                StateView::Producing
            }),
            forall|o: u128| o != id@ ==> #[trigger] final(self).has(o) == old(self).has(o),
            forall|o: u128| o != id@ && old(self).has(o)
                ==> final(self).state_of(o) == old(self).state_of(o)
                    && final(self).subs_of(o) == old(self).subs_of(o),
    {
        let sub = Subscription { consumer, mode };
        match self.find_record(&id) {
            Some(i) => {
                proof {
                    old(self).lemma_idx_unique(i as int);
                }
                let keep_state = match &self.records[i].state {
                    ProductionState::Resolved(_) => true,
                    _ => false,
                };
                if !keep_state {
                    self.records[i].state = ProductionState::Producing;
                }
                self.records[i].subs.push(sub);
                proof {
                    let n = self.records@.len() as int;
                    assert(forall|j: int| 0 <= j < n ==> self.records@[j].id@
                        == old(self).records@[j].id@);
                    assert(self.wf());
                    self.lemma_idx_unique(i as int);
                    assert(self.subs_of(id@) =~= old(self).subs_of(id@).push(
                        SubView { consumer: consumer@, mode },
                    ));
                    assert forall|o: u128| o != id@ implies #[trigger] self.has(o)
                        == old(self).has(o) by {
                        if old(self).has(o) {
                            old(self).lemma_idx(o);
                            assert(self.records@[old(self).idx_of(o)].id@ == o);
                        }
                        if self.has(o) {
                            self.lemma_idx(o);
                            assert(old(self).records@[self.idx_of(o)].id@ == o);
                        }
                    }
                    assert forall|o: u128| o != id@ && old(self).has(o) implies
                        self.state_of(o) == old(self).state_of(o)
                            && self.subs_of(o) == old(self).subs_of(o) by {
                        old(self).lemma_idx(o);
                        let j = old(self).idx_of(o);
                        self.lemma_idx_unique(j);
                        assert(j != i as int);
                    }
                }
            },
            None => {
                let mut subs: Vec<Subscription> = Vec::new();
                subs.push(sub);
                self.records.push(
                    ResourceRecord { id, state: ProductionState::Producing, subs },
                );
                proof {
                    let n = old(self).records@.len() as int;
                    assert(forall|j: int| 0 <= j < n ==> old(self).records@[j].id@ != id@);
                    assert(self.records@[n].id@ == id@);
                    assert(self.wf());
                    self.lemma_idx_unique(n);
                    assert(self.subs_of(id@) =~= Seq::<SubView>::empty().push(
                        SubView { consumer: consumer@, mode },
                    ));
                    assert forall|o: u128| o != id@ implies #[trigger] self.has(o)
                        == old(self).has(o) by {
                        if old(self).has(o) {
                            old(self).lemma_idx(o);
                            assert(self.records@[old(self).idx_of(o)].id@ == o);
                        }
                        if self.has(o) {
                            self.lemma_idx(o);
                            assert(self.idx_of(o) != n);
                            assert(old(self).records@[self.idx_of(o)].id@ == o);
                        }
                    }
                    assert forall|o: u128| o != id@ && old(self).has(o) implies
                        self.state_of(o) == old(self).state_of(o)
                            && self.subs_of(o) == old(self).subs_of(o) by {
                        old(self).lemma_idx(o);
                        self.lemma_idx_unique(old(self).idx_of(o));
                    }
                }
            },
        }
    }

    /// Registers a one-shot subscription: deliver the resource once —
    /// `success` or `error` — then forget the subscriber.  An unknown
    /// identity is implicitly declared; if no production is in flight and
    /// no resolved value is cached, production is triggered; an in-flight
    /// production is joined, never duplicated.  A cached resolved value is
    /// served at the next run-loop tick, without asking the host again.
    pub fn consume(&mut self, id: ResourceId, consumer: ConsumerRef)
        requires
            old(self).wf(),
        ensures
            final(self).wf(),
            final(self).has(id@),
            final(self).subs_of(id@) == (if old(self).has(id@) {
                old(self).subs_of(id@)
            } else {
                Seq::<SubView>::empty()
            }).push(SubView { consumer: consumer@, mode: Mode::OneShot }),
            final(self).state_of(id@) == (if old(self).has(id@) && old(self).state_of(id@)
                is Resolved {
                old(self).state_of(id@)
            } else {
                StateView::Producing
            }),
            forall|o: u128| o != id@ ==> #[trigger] final(self).has(o) == old(self).has(o),
            forall|o: u128| o != id@ && old(self).has(o)
                ==> final(self).state_of(o) == old(self).state_of(o)
                    && final(self).subs_of(o) == old(self).subs_of(o),
    {
        self.subscribe(id, consumer, Mode::OneShot);
    }

    /// Registers a persistent subscription: deliver on every successful
    /// production from now on, and report each failed attempt, until the
    /// consumer behind the handle is gone.  A currently resolved value is
    /// not replayed to it; delivery starts with the next production.
    pub fn consume_on_change(&mut self, id: ResourceId, consumer: ConsumerRef)
        requires
            old(self).wf(),
        ensures
            final(self).wf(),
            final(self).has(id@),
            final(self).subs_of(id@) == (if old(self).has(id@) {
                old(self).subs_of(id@)
            } else {
                Seq::<SubView>::empty()
            }).push(SubView { consumer: consumer@, mode: Mode::OnChange }),
            final(self).state_of(id@) == (if old(self).has(id@) && old(self).state_of(id@)
                is Resolved {
                old(self).state_of(id@)
            } else {
                StateView::Producing
            }),
            forall|o: u128| o != id@ ==> #[trigger] final(self).has(o) == old(self).has(o),
            forall|o: u128| o != id@ && old(self).has(o)
                ==> final(self).state_of(o) == old(self).state_of(o)
                    && final(self).subs_of(o) == old(self).subs_of(o),
    {
        self.subscribe(id, consumer, Mode::OnChange);
    }

    /// Asks for the content of a known identity to be produced anew: the
    /// identity re-enters the producing state, and the next run-loop tick
    /// asks the host for fresh content.  An in-flight production is kept as
    /// it is, and an unknown identity is left unknown.
    pub fn refresh(&mut self, id: ResourceId)
        requires
            old(self).wf(),
        ensures
            final(self).wf(),
            forall|o: u128| #[trigger] final(self).has(o) == old(self).has(o),
            old(self).has(id@) ==> final(self).state_of(id@) == StateView::Producing
                && final(self).subs_of(id@) == old(self).subs_of(id@),
            !old(self).has(id@) ==> *final(self) == *old(self),
            forall|o: u128| o != id@ && old(self).has(o)
                ==> final(self).state_of(o) == old(self).state_of(o)
                    && final(self).subs_of(o) == old(self).subs_of(o),
    {
        match self.find_record(&id) {
            Some(i) => {
                proof {
                    old(self).lemma_idx_unique(i as int);
                }
                self.records[i].state = ProductionState::Producing;
                proof {
                    let n = self.records@.len() as int;
                    assert(forall|j: int| 0 <= j < n ==> self.records@[j].id@
                        == old(self).records@[j].id@);
                    assert(self.wf());
                    self.lemma_idx_unique(i as int);
                    assert forall|o: u128| #[trigger] self.has(o) == old(self).has(o) by {
                        if old(self).has(o) {
                            old(self).lemma_idx(o);
                            assert(self.records@[old(self).idx_of(o)].id@ == o);
                        }
                        if self.has(o) {
                            self.lemma_idx(o);
                            assert(old(self).records@[self.idx_of(o)].id@ == o);
                        }
                    }
                    assert forall|o: u128| o != id@ && old(self).has(o) implies
                        self.state_of(o) == old(self).state_of(o)
                            && self.subs_of(o) == old(self).subs_of(o) by {
                        old(self).lemma_idx(o);
                        let j = old(self).idx_of(o);
                        self.lemma_idx_unique(j);
                        assert(j != i as int);
                    }
                }
            },
            None => {},
        }
    }

    /// The identities the next run-loop pass will ask the host to produce,
    /// in the order it will ask.
    pub closed spec fn producing_order(self) -> Seq<u128> {
        producing_ids(self.records@)
    }

    /// Invalidates the cached resolved value of `id` without asking for new
    /// production: the identity goes stale, and demand — the next consumer
    /// — triggers the next production instead of being served from the
    /// cache.  Only a resolved identity changes; subscribers stay as they
    /// are.
    pub fn invalidate(&mut self, id: ResourceId)
        requires
            old(self).wf(),
        ensures
            final(self).wf(),
            forall|o: u128| #[trigger] final(self).has(o) == old(self).has(o),
            old(self).has(id@) && old(self).state_of(id@) is Resolved
                ==> final(self).state_of(id@) == StateView::Stale
                    && final(self).subs_of(id@) == old(self).subs_of(id@),
            !(old(self).has(id@) && old(self).state_of(id@) is Resolved) ==> *final(self)
                == *old(self),
            forall|o: u128| o != id@ && old(self).has(o)
                ==> final(self).state_of(o) == old(self).state_of(o)
                    && final(self).subs_of(o) == old(self).subs_of(o),
    {
        match self.find_record(&id) {
            Some(i) => {
                proof {
                    old(self).lemma_idx_unique(i as int);
                }
                let resolved = match &self.records[i].state {
                    ProductionState::Resolved(_) => true,
                    _ => false,
                };
                if resolved {
                    self.records[i].state = ProductionState::Stale;
                    proof {
                        let n = self.records@.len() as int;
                        assert(forall|j: int| 0 <= j < n ==> self.records@[j].id@
                            == old(self).records@[j].id@);
                        assert(self.wf());
                        self.lemma_idx_unique(i as int);
                        assert forall|o: u128| #[trigger] self.has(o) == old(self).has(o) by {
                            if old(self).has(o) {
                                old(self).lemma_idx(o);
                                assert(self.records@[old(self).idx_of(o)].id@ == o);
                            }
                            if self.has(o) {
                                self.lemma_idx(o);
                                assert(old(self).records@[self.idx_of(o)].id@ == o);
                            }
                        }
                        assert forall|o: u128| o != id@ && old(self).has(o) implies
                            self.state_of(o) == old(self).state_of(o)
                                && self.subs_of(o) == old(self).subs_of(o) by {
                            old(self).lemma_idx(o);
                            let j = old(self).idx_of(o);
                            self.lemma_idx_unique(j);
                            assert(j != i as int);
                        }
                    }
                }
            },
            None => {},
        }
    }

    /// Fans a finished production for the record at `i` out to its
    /// subscribers, in subscription order, and installs the resulting
    /// state.
    fn complete_at<C: Consumer>(
        &mut self,
        i: usize,
        result: Result<Resource, String>,
        registry: &mut ConsumerRegistry<C>,
    )
        requires
            old(self).wf(),
            i < old(self).records@.len(),
        ensures
            final(self).wf(),
            final(self).records@.len() == old(self).records@.len(),
            forall|j: int|
                0 <= j < old(self).records@.len() && j != i ==> final(self).records@[j]
                    == old(self).records@[j],
            final(self).records@[i as int].id == old(self).records@[i as int].id,
            state_view(final(self).records@[i as int].state) == completed_state(result),
            sub_views(final(self).records@[i as int].subs@) == survivors(
                sub_views(old(self).records@[i as int].subs@),
                old(registry).live_set(),
            ),
            final(registry).slot_count() == old(registry).slot_count(),
            forall|h: int| final(registry).live(h) == old(registry).live(h),
            final(registry).deliveries() == old(registry).deliveries() + fanout_log(
                old(self).records@[i as int].id@,
                sub_views(old(self).records@[i as int].subs@),
                old(registry).live_set(),
                outcome_of(result),
            ),
    {
        let ghost svs = sub_views(old(self).records@[i as int].subs@);
        let ghost live = old(registry).live_set();
        let ghost out = outcome_of(result);
        let ghost rid = old(self).records@[i as int].id@;
        let mut kept: Vec<Subscription> = Vec::new();
        match result {
            Ok(resource) => {
                let mut j: usize = 0;
                while j < self.records[i].subs.len()
                    invariant
                        old(self).wf(),
                        i < old(self).records@.len(),
                        *self == *old(self),
                        j <= self.records@[i as int].subs@.len(),
                        svs == sub_views(self.records@[i as int].subs@),
                        rid == self.records@[i as int].id@,
                        out == Outcome::Success(resource@),
                        registry.slot_count() == old(registry).slot_count(),
                        forall|h: int| registry.live(h) == old(registry).live(h),
                        registry.live_set() == live,
                        registry.deliveries() == old(registry).deliveries() + fanout_log(
                            rid,
                            svs.subrange(0, j as int),
                            live,
                            out,
                        ),
                        sub_views(kept@) == survivors(svs.subrange(0, j as int), live),
                    decreases self.records@[i as int].subs@.len() - j,
                {
                    let sub = self.records[i].subs[j];
                    let ghost pre_kept = kept@;
                    let ghost pre_log = registry.deliveries();
                    let delivered = registry.deliver_success(
                        &self.records[i].id,
                        sub.consumer,
                        &resource,
                    );
                    let keep = match sub.mode {
                        Mode::OnChange => delivered,
                        Mode::OneShot => false,
                    };
                    if keep {
                        kept.push(sub);
                    }
                    proof {
                        assert(registry.live_set() =~= live);
                        let p1 = svs.subrange(0, j as int);
                        let p2 = svs.subrange(0, j as int + 1);
                        assert(p2.drop_last() =~= p1);
                        assert(p2.last() == svs[j as int]);
                        assert(svs[j as int] == sub_view(sub));
                        assert(delivered == live.contains(sub_view(sub).consumer));
                        assert(registry.deliveries() =~= old(registry).deliveries()
                            + fanout_log(rid, p2, live, out));
                        if keep {
                            assert(sub_views(kept@) =~= sub_views(pre_kept).push(sub_view(sub)));
                        }
                        assert(sub_views(kept@) =~= survivors(p2, live));
                    }
                    j += 1;
                }
                proof {
                    assert(svs.subrange(0, svs.len() as int) =~= svs);
                }
                self.records[i].state = ProductionState::Resolved(resource);
                self.records[i].subs = kept;
            },
            Err(message) => {
                let mut j: usize = 0;
                while j < self.records[i].subs.len()
                    invariant
                        old(self).wf(),
                        i < old(self).records@.len(),
                        *self == *old(self),
                        j <= self.records@[i as int].subs@.len(),
                        svs == sub_views(self.records@[i as int].subs@),
                        rid == self.records@[i as int].id@,
                        out == Outcome::Error(message@),
                        registry.slot_count() == old(registry).slot_count(),
                        forall|h: int| registry.live(h) == old(registry).live(h),
                        registry.live_set() == live,
                        registry.deliveries() == old(registry).deliveries() + fanout_log(
                            rid,
                            svs.subrange(0, j as int),
                            live,
                            out,
                        ),
                        sub_views(kept@) == survivors(svs.subrange(0, j as int), live),
                    decreases self.records@[i as int].subs@.len() - j,
                {
                    let sub = self.records[i].subs[j];
                    let ghost pre_kept = kept@;
                    let delivered = registry.deliver_error(
                        &self.records[i].id,
                        sub.consumer,
                        message.as_str(),
                    );
                    let keep = match sub.mode {
                        Mode::OnChange => delivered,
                        Mode::OneShot => false,
                    };
                    if keep {
                        kept.push(sub);
                    }
                    proof {
                        assert(registry.live_set() =~= live);
                        let p1 = svs.subrange(0, j as int);
                        let p2 = svs.subrange(0, j as int + 1);
                        assert(p2.drop_last() =~= p1);
                        assert(p2.last() == svs[j as int]);
                        assert(svs[j as int] == sub_view(sub));
                        assert(delivered == live.contains(sub_view(sub).consumer));
                        assert(registry.deliveries() =~= old(registry).deliveries()
                            + fanout_log(rid, p2, live, out));
                        if keep {
                            assert(sub_views(kept@) =~= sub_views(pre_kept).push(sub_view(sub)));
                        }
                        assert(sub_views(kept@) =~= survivors(p2, live));
                    }
                    j += 1;
                }
                proof {
                    assert(svs.subrange(0, svs.len() as int) =~= svs);
                }
                self.records[i].state = ProductionState::Failed(message);
                self.records[i].subs = kept;
            },
        }
        proof {
            assert(forall|j: int|
                0 <= j < self.records@.len() ==> self.records@[j].id@
                    == old(self).records@[j].id@);
            assert(self.wf());
        }
    }

    /// Serves the cached resolved value of the record at `i` to its queued
    /// one-shot subscribers, in subscription order, and removes them.  The
    /// on-change subscribers are not notified — no new production happened
    /// — and stay registered.
    fn serve_cached_at<C: Consumer>(&mut self, i: usize, registry: &mut ConsumerRegistry<C>)
        requires
            old(self).wf(),
            i < old(self).records@.len(),
            state_view(old(self).records@[i as int].state) is Resolved,
        ensures
            final(self).wf(),
            final(self).records@.len() == old(self).records@.len(),
            forall|j: int|
                0 <= j < old(self).records@.len() && j != i ==> final(self).records@[j]
                    == old(self).records@[j],
            final(self).records@[i as int].id == old(self).records@[i as int].id,
            final(self).records@[i as int].state == old(self).records@[i as int].state,
            sub_views(final(self).records@[i as int].subs@) == on_change_only(
                sub_views(old(self).records@[i as int].subs@),
            ),
            final(registry).slot_count() == old(registry).slot_count(),
            forall|h: int| final(registry).live(h) == old(registry).live(h),
            final(registry).deliveries() == old(registry).deliveries() + fanout_log(
                old(self).records@[i as int].id@,
                one_shots(sub_views(old(self).records@[i as int].subs@)),
                old(registry).live_set(),
                Outcome::Success(resolved_view(state_view(old(self).records@[i as int].state))),
            ),
    {
        let ghost svs = sub_views(old(self).records@[i as int].subs@);
        let ghost live = old(registry).live_set();
        let ghost out = Outcome::Success(
            resolved_view(state_view(old(self).records@[i as int].state)),
        );
        let ghost rid = old(self).records@[i as int].id@;
        let mut kept: Vec<Subscription> = Vec::new();
        let mut j: usize = 0;
        while j < self.records[i].subs.len()
            invariant
                old(self).wf(),
                i < old(self).records@.len(),
                *self == *old(self),
                state_view(self.records@[i as int].state) is Resolved,
                j <= self.records@[i as int].subs@.len(),
                svs == sub_views(self.records@[i as int].subs@),
                rid == self.records@[i as int].id@,
                out == Outcome::Success(
                    resolved_view(state_view(self.records@[i as int].state)),
                ),
                registry.slot_count() == old(registry).slot_count(),
                forall|h: int| registry.live(h) == old(registry).live(h),
                registry.live_set() == live,
                registry.deliveries() == old(registry).deliveries() + fanout_log(
                    rid,
                    one_shots(svs.subrange(0, j as int)),
                    live,
                    out,
                ),
                sub_views(kept@) == on_change_only(svs.subrange(0, j as int)),
            decreases self.records@[i as int].subs@.len() - j,
        {
            let sub = self.records[i].subs[j];
            let ghost pre_kept = kept@;
            let ghost p1 = svs.subrange(0, j as int);
            let ghost p2 = svs.subrange(0, j as int + 1);
            proof {
                assert(p2.drop_last() =~= p1);
                assert(p2.last() == svs[j as int]);
                assert(svs[j as int] == sub_view(sub));
            }
            match sub.mode {
                Mode::OneShot => {
                    match &self.records[i].state {
                        ProductionState::Resolved(resource) => {
                            registry.deliver_success(&self.records[i].id, sub.consumer, resource);
                            proof {
                                assert(resource@ == resolved_view(
                                    state_view(self.records@[i as int].state),
                                ));
                                let q1 = one_shots(p1);
                                let q2 = one_shots(p2);
                                assert(q2 =~= q1.push(sub_view(sub)));
                                assert(q2.drop_last() =~= q1);
                                assert(q2.last() == sub_view(sub));
                                assert(on_change_only(p2) =~= on_change_only(p1));
                                assert(registry.deliveries() =~= old(registry).deliveries()
                                    + fanout_log(rid, q2, live, out));
                            }
                        },
                        _ => {
                            proof {
                                assert(false);
                            }
                        },
                    }
                },
                Mode::OnChange => {
                    kept.push(sub);
                    proof {
                        assert(one_shots(p2) =~= one_shots(p1));
                        assert(on_change_only(p2) =~= on_change_only(p1).push(sub_view(sub)));
                        assert(sub_views(kept@) =~= sub_views(pre_kept).push(sub_view(sub)));
                    }
                },
            }
            proof {
                assert(registry.live_set() =~= live);
                assert(registry.deliveries() =~= old(registry).deliveries() + fanout_log(
                    rid,
                    one_shots(p2),
                    live,
                    out,
                ));
                assert(sub_views(kept@) =~= on_change_only(p2));
            }
            j += 1;
        }
        proof {
            assert(svs.subrange(0, svs.len() as int) =~= svs);
        }
        self.records[i].subs = kept;
        proof {
            assert(forall|j: int|
                0 <= j < self.records@.len() ==> self.records@[j].id@
                    == old(self).records@[j].id@);
            assert(self.wf());
        }
    }

    /// Concludes the in-flight production of `id` with the given result:
    /// the identity resolves or fails as the result says, and every live
    /// subscriber is notified in subscription order — one-shot subscribers
    /// are then forgotten, on-change subscribers stay unless their handle
    /// dangles.  Reports whether anything was concluded: an identity that
    /// is unknown or not producing is left exactly as it was.
    pub fn complete_production<C: Consumer>(
        &mut self,
        id: ResourceId,
        result: Result<Resource, String>,
        registry: &mut ConsumerRegistry<C>,
    ) -> (completed: bool)
        requires
            old(self).wf(),
        ensures
            final(self).wf(),
            completed == (old(self).has(id@) && old(self).state_of(id@) is Producing),
            forall|o: u128| #[trigger] final(self).has(o) == old(self).has(o),
            final(registry).slot_count() == old(registry).slot_count(),
            forall|h: int| final(registry).live(h) == old(registry).live(h),
            !completed ==> *final(self) == *old(self) && *final(registry) == *old(registry),
            completed ==> final(self).state_of(id@) == completed_state(result)
                && final(self).subs_of(id@) == survivors(
                    old(self).subs_of(id@),
                    old(registry).live_set(),
                )
                && final(registry).deliveries() == old(registry).deliveries() + fanout_log(
                    id@,
                    old(self).subs_of(id@),
                    old(registry).live_set(),
                    outcome_of(result),
                ),
            forall|o: u128| o != id@ && old(self).has(o)
                ==> final(self).state_of(o) == old(self).state_of(o)
                    && final(self).subs_of(o) == old(self).subs_of(o),
    {
        match self.find_record(&id) {
            Some(i) => {
                proof {
                    old(self).lemma_idx_unique(i as int);
                }
                let producing = match &self.records[i].state {
                    ProductionState::Producing => true,
                    _ => false,
                };
                if producing {
                    self.complete_at(i, result, registry);
                    proof {
                        self.lemma_idx_unique(i as int);
                        assert forall|o: u128| #[trigger] self.has(o) == old(self).has(o) by {
                            if old(self).has(o) {
                                old(self).lemma_idx(o);
                                assert(self.records@[old(self).idx_of(o)].id@ == o);
                            }
                            if self.has(o) {
                                self.lemma_idx(o);
                                assert(old(self).records@[self.idx_of(o)].id@ == o);
                            }
                        }
                        assert forall|o: u128| o != id@ && old(self).has(o) implies
                            self.state_of(o) == old(self).state_of(o)
                                && self.subs_of(o) == old(self).subs_of(o) by {
                            old(self).lemma_idx(o);
                            let j = old(self).idx_of(o);
                            self.lemma_idx_unique(j);
                            assert(j != i as int);
                        }
                    }
                    true
                } else {
                    false
                }
            },
            None => false,
        }
    }

    /// One pass of the run loop: asks the host, exactly once each and in
    /// record order, for every identity whose production is in flight, and
    /// fans each answer out; serves queued one-shot subscribers of resolved
    /// identities from the cache.  The only place production is invoked or
    /// consumers are called; a dangling consumer handle anywhere is pruned
    /// silently, never an error.
    pub fn run<H: Host, C: Consumer>(&mut self, host: &mut H, registry: &mut ConsumerRegistry<C>)
        requires
            old(self).wf(),
        ensures
            final(self).wf(),
            forall|o: u128| #[trigger] final(self).has(o) == old(self).has(o),
            final(host).produced() == old(host).produced() + old(self).producing_order(),
            final(registry).slot_count() == old(registry).slot_count(),
            forall|h: int| final(registry).live(h) == old(registry).live(h),
            old(registry).deliveries().is_prefix_of(final(registry).deliveries()),
            forall|o: u128| old(self).has(o) ==> run_effect(
                #[trigger] old(self).state_of(o),
                old(self).subs_of(o),
                final(self).state_of(o),
                final(self).subs_of(o),
                old(registry).live_set(),
            ),
            forall|o: u128| old(self).has(o) ==> crate::laws::for_id(
                final(registry).deliveries().skip(old(registry).deliveries().len() as int),
                o,
            ) == run_deliveries(
                o,
                #[trigger] old(self).state_of(o),
                old(self).subs_of(o),
                final(self).state_of(o),
                old(registry).live_set(),
            ),
            forall|o: u128| !old(self).has(o) ==> #[trigger] crate::laws::for_id(
                final(registry).deliveries().skip(old(registry).deliveries().len() as int),
                o,
            ) == Seq::<Delivery>::empty(),
    {
        let ghost orecs = old(self).records@;
        let ghost live = old(registry).live_set();
        let ghost old_log = old(registry).deliveries();
        let mut i: usize = 0;
        while i < self.records.len()
            invariant
                old(self).wf(),
                self.wf(),
                self.records@.len() == orecs.len(),
                i <= orecs.len(),
                forall|j: int| 0 <= j < orecs.len() ==> self.records@[j].id == orecs[j].id,
                forall|j: int| i <= j < orecs.len() ==> self.records@[j] == orecs[j],
                forall|j: int| 0 <= j < i ==> run_effect(
                    state_view(orecs[j].state),
                    sub_views(orecs[j].subs@),
                    state_view(#[trigger] self.records@[j].state),
                    sub_views(self.records@[j].subs@),
                    live,
                ),
                host.produced() == old(host).produced() + producing_ids(
                    orecs.subrange(0, i as int),
                ),
                registry.slot_count() == old(registry).slot_count(),
                forall|h: int| registry.live(h) == old(registry).live(h),
                registry.live_set() == live,
                registry.deliveries() == old_log + blocks_upto(
                    orecs,
                    self.records@,
                    live,
                    i as int,
                ),
            decreases orecs.len() - i,
        {
            let ghost p1 = orecs.subrange(0, i as int);
            let ghost p2 = orecs.subrange(0, i as int + 1);
            let ghost prev_recs = self.records@;
            proof {
                assert(p2.drop_last() =~= p1);
                assert(p2.last() == orecs[i as int]);
            }
            let kind: u8 = match &self.records[i].state {
                ProductionState::Producing => 1,
                ProductionState::Resolved(_) => 2,
                _ => 0,
            };
            if kind == 1 {
                let id = self.records[i].id;
                let result = host.produce(&id);
                let ghost res = result;
                self.complete_at(i, result, registry);
                proof {
                    assert(registry.live_set() =~= live);
                    assert(producing_ids(p2) =~= producing_ids(p1).push(id@));
                    assert(host.produced() =~= old(host).produced() + producing_ids(p2));
                    lemma_blocks_agree(orecs, prev_recs, self.records@, live, i as int);
                    assert(state_view(self.records@[i as int].state) == completed_state(res));
                    assert(outcome_view(completed_state(res)) == outcome_of(res));
                    assert(run_deliveries(
                        orecs[i as int].id@,
                        state_view(orecs[i as int].state),
                        sub_views(orecs[i as int].subs@),
                        state_view(self.records@[i as int].state),
                        live,
                    ) == fanout_log(
                        orecs[i as int].id@,
                        sub_views(orecs[i as int].subs@),
                        live,
                        outcome_of(res),
                    ));
                    assert(registry.deliveries() =~= old_log + blocks_upto(
                        orecs,
                        self.records@,
                        live,
                        i as int + 1,
                    ));
                }
            } else if kind == 2 {
                self.serve_cached_at(i, registry);
                proof {
                    assert(registry.live_set() =~= live);
                    assert(producing_ids(p2) =~= producing_ids(p1));
                    lemma_blocks_agree(orecs, prev_recs, self.records@, live, i as int);
                    assert(run_deliveries(
                        orecs[i as int].id@,
                        state_view(orecs[i as int].state),
                        sub_views(orecs[i as int].subs@),
                        state_view(self.records@[i as int].state),
                        live,
                    ) == fanout_log(
                        orecs[i as int].id@,
                        one_shots(sub_views(orecs[i as int].subs@)),
                        live,
                        Outcome::Success(resolved_view(state_view(orecs[i as int].state))),
                    ));
                    assert(registry.deliveries() =~= old_log + blocks_upto(
                        orecs,
                        self.records@,
                        live,
                        i as int + 1,
                    ));
                }
            } else {
                proof {
                    assert(producing_ids(p2) =~= producing_ids(p1));
                    assert(run_deliveries(
                        orecs[i as int].id@,
                        state_view(orecs[i as int].state),
                        sub_views(orecs[i as int].subs@),
                        state_view(self.records@[i as int].state),
                        live,
                    ) == Seq::<Delivery>::empty());
                    assert(registry.deliveries() =~= old_log + blocks_upto(
                        orecs,
                        self.records@,
                        live,
                        i as int + 1,
                    ));
                }
            }
            i += 1;
        }
        proof {
            assert(orecs.subrange(0, orecs.len() as int) =~= orecs);
            assert forall|o: u128| #[trigger] self.has(o) == old(self).has(o) by {
                if old(self).has(o) {
                    old(self).lemma_idx(o);
                    assert(self.records@[old(self).idx_of(o)].id@ == o);
                }
                if self.has(o) {
                    self.lemma_idx(o);
                    assert(orecs[self.idx_of(o)].id@ == o);
                }
            }
            assert forall|o: u128| old(self).has(o) implies run_effect(
                #[trigger] old(self).state_of(o),
                old(self).subs_of(o),
                self.state_of(o),
                self.subs_of(o),
                live,
            ) by {
                old(self).lemma_idx(o);
                let j = old(self).idx_of(o);
                self.lemma_idx_unique(j);
            }
            let ext = blocks_upto(orecs, self.records@, live, orecs.len() as int);
            assert(registry.deliveries() == old_log + ext);
            assert(registry.deliveries().subrange(0, old_log.len() as int) =~= old_log);
            assert(old_log.is_prefix_of(registry.deliveries()));
            assert(registry.deliveries().skip(old_log.len() as int) =~= ext);
            assert forall|o: u128| old(self).has(o) implies crate::laws::for_id(
                registry.deliveries().skip(old_log.len() as int),
                o,
            ) == run_deliveries(
                o,
                #[trigger] old(self).state_of(o),
                old(self).subs_of(o),
                self.state_of(o),
                live,
            ) by {
                old(self).lemma_idx(o);
                let j = old(self).idx_of(o);
                self.lemma_idx_unique(j);
                lemma_blocks_for_id(orecs, self.records@, live, orecs.len() as int, o);
            }
            assert forall|o: u128| !old(self).has(o) implies #[trigger] crate::laws::for_id(
                registry.deliveries().skip(old_log.len() as int),
                o,
            ) == Seq::<Delivery>::empty() by {
                lemma_blocks_for_id(orecs, self.records@, live, orecs.len() as int, o);
                assert forall|j: int| 0 <= j < orecs.len() implies orecs[j].id@ != o by {
                    assert(!old(self).has(o));
                }
            }
        }
    }
}

} // verus!
