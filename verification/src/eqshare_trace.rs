//! The trace of the equality exchange: one event per delivery.

use crate::atoms::TheoryId;
use crate::reason::ReasonId;
use crate::term::TermId;
use vstd::prelude::*;

verus! {

/// A delivery: an equality that one theory exported and another was handed.
#[derive(Debug, Clone)]
pub struct EqShareEvent {
    pub epoch: u64,
    pub src: TheoryId,
    pub dst: TheoryId,
    pub a: TermId,
    pub b: TermId,
    pub explain: ReasonId,
}

impl EqShareEvent {
    /// A copy of the event.
    pub fn clone_event(&self) -> (ev: EqShareEvent)
        ensures
            ev == *self,
    {
        EqShareEvent {
            epoch: self.epoch,
            src: self.src,
            dst: self.dst,
            a: self.a,
            b: self.b,
            explain: self.explain,
        }
    }
}

/// A queue of events that can be drained.
pub struct EqShareTrace {
    events: Vec<EqShareEvent>,
}

impl Default for EqShareTrace {
    fn default() -> (trace: Self)
        ensures
            trace@ == Seq::<EqShareEvent>::empty(),
    {
        EqShareTrace { events: Vec::new() }
    }
}

impl View for EqShareTrace {
    type V = Seq<EqShareEvent>;

    closed spec fn view(&self) -> Seq<EqShareEvent> {
        self.events@
    }
}

impl EqShareTrace {
    /// Appends an event.
    pub fn push(&mut self, ev: EqShareEvent)
        ensures
            final(self)@ == old(self)@.push(ev),
    {
        self.events.push(ev);
    }

    /// Drops every event.
    pub fn clear(&mut self)
        ensures
            final(self)@ == Seq::<EqShareEvent>::empty(),
    {
        self.events.clear();
    }

    /// The events recorded and not yet drained, oldest first.
    pub fn events(&self) -> (all: &[EqShareEvent])
        ensures
            all@ == self@,
    {
        self.events.as_slice()
    }

    /// Hands out every event and leaves the queue empty.
    pub fn take(&mut self) -> (all: Vec<EqShareEvent>)
        ensures
            all@ == old(self)@,
            final(self)@ == Seq::<EqShareEvent>::empty(),
    {
        let mut all: Vec<EqShareEvent> = Vec::new();
        core::mem::swap(&mut self.events, &mut all);
        all
    }
}

} // verus!
