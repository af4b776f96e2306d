//! Consumer capabilities and the registry that owns them.
//!
//! The mediator never holds a consumer itself: it holds a non-owning
//! [`ConsumerRef`] and resolves it against a [`ConsumerRegistry`] at
//! notification time.  A handle whose slot has been vacated (the owner
//! dropped the consumer) silently fails to resolve, and the mediator prunes
//! the subscription instead of erroring.

use vstd::prelude::*;

use crate::resource::Resource;
use crate::resource::ResourceId;

verus! {

/// A two-outcome callback capability.  Each notification is terminal for
/// that delivery: either `success` with a read-only view of the resolved
/// resource, valid for the duration of the call, or `error` with a
/// human-readable message.
pub trait Consumer {
    /// The resource was produced; `resource` is borrowed for this call only.
    fn success(&mut self, resource: &Resource);

    /// Production failed; `message` describes why.
    fn error(&mut self, message: &str);
}

/// A non-owning handle to a consumer held by some [`ConsumerRegistry`].
/// Holding one never extends the consumer's lifetime.
#[derive(Clone, Copy, Debug, PartialEq, Eq, Structural)]
pub struct ConsumerRef {
    index: usize,
}

impl View for ConsumerRef {
    type V = int;

    closed spec fn view(&self) -> int {
        self.index as int
    }
}

/// One recorded notification: which consumer handle was called, about which
/// resource identity, and with which outcome.
pub struct Delivery {
    pub id: u128,
    pub consumer: int,
    pub outcome: Outcome,
}

/// The outcome a notification carried.
pub enum Outcome {
    Success(crate::resource::ResourceView),
    Error(Seq<char>),
}

/// Owns consumers in slots addressed by [`ConsumerRef`] handles and keeps a
/// ghost log of every notification it delivered.  Dropping a consumer
/// vacates its slot; the handle then resolves to nothing.
pub struct ConsumerRegistry<C> {
    slots: Vec<Option<C>>,
    log: Ghost<Seq<Delivery>>,
}

impl<C: Consumer> ConsumerRegistry<C> {
    /// Whether the handle value `h` currently resolves to a live consumer.
    pub closed spec fn live(self, h: int) -> bool {
        0 <= h < self.slots@.len() && self.slots@[h] is Some
    }

    /// The set of handle values that currently resolve.
    pub open spec fn live_set(self) -> Set<int> {
        Set::new(|h: int| self.live(h))
    }

    /// How many slots have ever been handed out.
    pub closed spec fn slot_count(self) -> int {
        self.slots@.len() as int
    }

    /// Every notification delivered so far, oldest first.
    pub closed spec fn deliveries(self) -> Seq<Delivery> {
        self.log@
    }

    /// An empty registry.
    pub fn new() -> (r: ConsumerRegistry<C>)
        ensures
            r.slot_count() == 0,
            r.deliveries() == Seq::<Delivery>::empty(),
            forall|h: int| !r.live(h),
    {
        ConsumerRegistry { slots: Vec::new(), log: Ghost(Seq::empty()) }
    }

    /// Takes ownership of `c` and hands back the handle under which the
    /// mediator may later resolve it.
    pub fn register(&mut self, c: C) -> (h: ConsumerRef)
        ensures
            h@ == old(self).slot_count(),
            final(self).slot_count() == old(self).slot_count() + 1,
            final(self).live(h@),
            forall|j: int| j != h@ ==> final(self).live(j) == old(self).live(j),
            final(self).deliveries() == old(self).deliveries(),
    {
        let index = self.slots.len();
        self.slots.push(Some(c));
        ConsumerRef { index }
    }

    /// Drops the consumer behind `h`, if any: from now on the handle fails
    /// to resolve and no further notification can reach the consumer.
    pub fn drop_consumer(&mut self, h: ConsumerRef)
        ensures
            !final(self).live(h@),
            forall|j: int| j != h@ ==> final(self).live(j) == old(self).live(j),
            final(self).slot_count() == old(self).slot_count(),
            final(self).deliveries() == old(self).deliveries(),
    {
        if h.index < self.slots.len() {
            self.slots[h.index] = None;
        }
    }

    /// Whether `h` still resolves to a live consumer.
    pub fn is_live(&self, h: ConsumerRef) -> (r: bool)
        ensures
            r == self.live(h@),
    {
        h.index < self.slots.len() && self.slots[h.index].is_some()
    }

    /// Resolves `h` and, if it is live, calls `success` on the consumer with
    /// a borrowed view of `resource`, recording the delivery.  A dangling
    /// handle delivers nothing and reports `false`.
    pub(crate) fn deliver_success(&mut self, id: &ResourceId, h: ConsumerRef, resource: &Resource)
        -> (delivered: bool)
        ensures
            delivered == old(self).live(h@),
            final(self).slot_count() == old(self).slot_count(),
            forall|j: int| final(self).live(j) == old(self).live(j),
            delivered ==> final(self).deliveries() == old(self).deliveries().push(
                Delivery { id: id@, consumer: h@, outcome: Outcome::Success(resource@) },
            ),
            !delivered ==> final(self).deliveries() == old(self).deliveries(),
    {
        if h.index >= self.slots.len() {
            return false;
        }
        let mut hit = false;
        match &mut self.slots[h.index] {
            Some(c) => {
                c.success(resource);
                hit = true;
            },
            None => {},
        }
        if hit {
            self.log = Ghost(
                self.log@.push(
                    Delivery { id: id@, consumer: h@, outcome: Outcome::Success(resource@) },
                ),
            );
        }
        hit
    }

    /// Resolves `h` and, if it is live, calls `error` on the consumer with
    /// the message, recording the delivery.  A dangling handle delivers
    /// nothing and reports `false`.
    pub(crate) fn deliver_error(&mut self, id: &ResourceId, h: ConsumerRef, message: &str)
        -> (delivered: bool)
        ensures
            delivered == old(self).live(h@),
            final(self).slot_count() == old(self).slot_count(),
            forall|j: int| final(self).live(j) == old(self).live(j),
            delivered ==> final(self).deliveries() == old(self).deliveries().push(
                Delivery { id: id@, consumer: h@, outcome: Outcome::Error(message@) },
            ),
            !delivered ==> final(self).deliveries() == old(self).deliveries(),
    {
        if h.index >= self.slots.len() {
            return false;
        }
        let mut hit = false;
        match &mut self.slots[h.index] {
            Some(c) => {
                c.error(message);
                hit = true;
            },
            None => {},
        }
        if hit {
            self.log = Ghost(
                self.log@.push(
                    Delivery { id: id@, consumer: h@, outcome: Outcome::Error(message@) },
                ),
            );
        }
        hit
    }
}

} // verus!
