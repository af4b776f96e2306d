//! The production backend the mediator delegates to.

use vstd::prelude::*;

use crate::resource::Resource;
use crate::resource::ResourceId;

verus! {

/// The backend that knows how to materialize a resource's content for a
/// given identity.  Implemented by collaborators; the mediator treats
/// `produce` as an opaque, fallible operation and assumes nothing of its
/// result.  An implementation accounts for every call in `produced`, so
/// that the mediator's contracts can say how often, and for which
/// identities, production was asked for.
pub trait Host {
    /// The identities this host was asked to produce so far, oldest first.
    spec fn produced(&self) -> Seq<u128>;

    /// Produces or refreshes the content for `id`, or fails with a
    /// descriptive message.
    fn produce(&mut self, id: &ResourceId) -> (result: Result<Resource, String>)
        ensures
            final(self).produced() == old(self).produced().push(id@),
    ;
}

/// A host that answers from a fixed script, front to back: deterministic
/// production for driving a mediator without a real backend.  Once the
/// script is exhausted every further call fails.
pub struct ScriptedHost {
    script: Vec<Result<Resource, String>>,
    calls: Ghost<Seq<u128>>,
    served: usize,
}

impl ScriptedHost {
    /// How many answers are still scripted.
    pub closed spec fn remaining(self) -> int {
        self.script@.len() as int
    }

    /// Type validity: the exec call counter agrees with the ghost call log.
    pub closed spec fn wf(self) -> bool {
        self.served == self.calls@.len()
    }

    /// A host with an empty script.
    pub fn new() -> (r: ScriptedHost)
        ensures
            r.wf(),
            r.produced() == Seq::<u128>::empty(),
            r.remaining() == 0,
    {
        ScriptedHost { script: Vec::new(), calls: Ghost(Seq::empty()), served: 0 }
    }

    /// Appends one scripted answer.
    pub fn push_result(&mut self, result: Result<Resource, String>)
        requires
            old(self).wf(),
        ensures
            final(self).wf(),
            final(self).produced() == old(self).produced(),
            final(self).remaining() == old(self).remaining() + 1,
    {
        self.script.push(result);
    }

    /// How many productions this host has served.
    pub fn calls_made(&self) -> (r: usize)
        requires
            self.wf(),
        ensures
            r == self.produced().len(),
    {
        self.served
    }
}

impl Host for ScriptedHost {
    closed spec fn produced(&self) -> Seq<u128> {
        self.calls@
    }

    fn produce(&mut self, id: &ResourceId) -> (result: Result<Resource, String>) {
        self.calls = Ghost(self.calls@.push(id@));
        if self.served < usize::MAX {
            self.served = self.served + 1;
        }
        if self.script.len() == 0 {
            Err("host script exhausted".to_owned())
        } else {
            self.script.remove(0)
        }
    }
}

} // verus!
