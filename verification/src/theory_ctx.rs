//! The handle through which a theory composes justifications.

use crate::reason::{all_below, Reason, ReasonArena, ReasonId, ReasonNode};
use vstd::prelude::*;

verus! {

/// Borrows the explanation store for the time of one call into a theory.
pub struct TheoryCtx<'a> {
    pub arena: &'a mut ReasonArena,
}

impl<'a> TheoryCtx<'a> {
    /// The nodes of the borrowed store.
    pub open spec fn view(&self) -> Seq<ReasonNode> {
        self.arena@
    }

    /// The borrowed store is a DAG in creation order.
    pub open spec fn wf(&self) -> bool {
        self.arena.wf()
    }

    /// A context over `arena`. What is appended through the context is
    /// appended to `arena`.
    pub fn new(arena: &'a mut ReasonArena) -> (tcx: Self)
        ensures
            tcx@ == old(arena)@,
            *final(tcx.arena) == *final(arena),
    {
        Self { arena }
    }

    /// The conjunction of `kids`. A single justification is its own
    /// conjunction: it is returned as it is and the store does not grow.
    /// Otherwise a new node over `kids` is appended.
    pub fn r_and(&mut self, kids: Vec<ReasonId>) -> (id: ReasonId)
        requires
            kids@.len() != 1 ==> {
                &&& old(self).wf()
                &&& old(self)@.len() < 0x1_0000_0000
                &&& all_below(kids@, old(self)@.len() as int)
            },
        ensures
            kids@.len() == 1 ==> id == kids@[0] && final(self)@ == old(self)@,
            kids@.len() != 1 ==> {
                &&& id.0 == old(self)@.len()
                &&& final(self)@ == old(self)@.push(ReasonNode::And(kids@))
                &&& final(self).wf()
            },
            *final(final(self).arena) == *final(old(self).arena),
    {
        if kids.len() == 1 {
            return kids[0];
        }
        self.arena.push(Reason::And(kids))
    }
}

} // verus!
