//! What a decision procedure provides to take part in the combination.

use crate::reason::ReasonId;
use crate::shared_terms::SharedTermOracle;
use crate::term::TermId;
use crate::theory_ctx::TheoryCtx;
use vstd::prelude::*;

verus! {

/// An equality between two terms together with its justification.
#[derive(Debug, Clone)]
pub struct SharedEq {
    pub a: TermId,
    pub b: TermId,
    pub explain: ReasonId,
}

/// A call into the equality-sharing capability of a theory.
pub ghost enum SharingCall {
    /// The theory was asked for its exports: it was handed the shared terms
    /// and the round, and it answered with a list of equalities.
    Export { shared: Set<TermId>, epoch: u64, answer: Seq<SharedEq> },
    /// The theory was handed an equality for import.
    Import { eq: SharedEq },
}

/// The call that hands each of `eqs` over for import, in order.
pub open spec fn imports_of(eqs: Seq<SharedEq>) -> Seq<SharingCall> {
    eqs.map_values(|eq: SharedEq| SharingCall::Import { eq })
}

/// The equality-sharing capability of a theory.
///
/// A theory may append to the explanation store through the context it is
/// handed. It leaves the store well formed, keeps every node that the store
/// held, hands the context back over the same store, and justifies what it
/// exports by handles of the store. The engine relies on this of every
/// implementation.
///
/// The calls that a theory has taken are part of its state as the contracts
/// see it: `calls` grows by one entry with each call. A verified theory
/// says what it is; of any other theory it is left unsaid.
pub trait EqualitySharing {
    /// The calls that the theory has taken, oldest first.
    open spec fn calls(&self) -> Seq<SharingCall> {
        (choose|history: spec_fn(&Self) -> Seq<SharingCall>| (#[trigger] history(self)).len() >= 0)(
            self,
        )
    }

    /// The equalities that the theory wants the others to know, each with a
    /// justification in the store. Called once per round.
    fn export_equalities(
        &mut self,
        oracle: &SharedTermOracle,
        export_epoch: u64,
        tcx: &mut TheoryCtx,
    ) -> (out: Vec<SharedEq>)
        requires
            old(tcx).wf(),
        ensures
            final(tcx).wf(),
            old(tcx)@.is_prefix_of(final(tcx)@),
            *final(final(tcx).arena) == *final(old(tcx).arena),
            forall|i: int|
                0 <= i < out@.len() ==> (#[trigger] out@[i]).explain.0 < final(tcx)@.len(),
            final(self).calls() == old(self).calls().push(
                SharingCall::Export { shared: oracle.terms(), epoch: export_epoch, answer: out@ },
            ),
    ;

    /// Takes an equality that another theory exported into the theory's own
    /// state.
    fn import_equality(&mut self, eq: SharedEq, tcx: &mut TheoryCtx)
        requires
            old(tcx).wf(),
            eq.explain.0 < old(tcx)@.len(),
        ensures
            final(tcx).wf(),
            old(tcx)@.is_prefix_of(final(tcx)@),
            *final(final(tcx).arena) == *final(old(tcx).arena),
            final(self).calls() == old(self).calls().push(SharingCall::Import { eq }),
    ;
}

/// A registered decision procedure.
pub trait Theory {
    /// Whether the theory has the equality-sharing capability. A theory has
    /// it for good or not at all.
    spec fn shares(&self) -> bool;

    /// The calls into its sharing capability that the theory has taken,
    /// oldest first.
    open spec fn calls(&self) -> Seq<SharingCall> {
        (choose|history: spec_fn(&Self) -> Seq<SharingCall>| (#[trigger] history(self)).len() >= 0)(
            self,
        )
    }

    /// The terms that the theory exposes for the atom `atom_term`: a
    /// function of the theory as it is and of the atom.
    open spec fn endpoints(&self, atom_term: TermId) -> Seq<TermId> {
        (choose|listing: spec_fn(&Self, TermId) -> Seq<TermId>|
            (#[trigger] listing(self, atom_term)).len() >= 0)(self, atom_term)
    }

    /// The display name of the theory, as text.
    open spec fn display_name(&self) -> Seq<char> {
        (choose|naming: spec_fn(&Self) -> Seq<char>| (#[trigger] naming(self)).len() >= 0)(self)
    }

    /// The display name of the theory.
    fn name(&self) -> (name: &'static str)
        ensures
            name@ == self.display_name(),
    ;

    /// The terms that the theory exposes for the atom `atom_term`. The
    /// engine computes the shared terms from them.
    fn atom_endpoints(&self, atom_term: TermId) -> (listed: Vec<TermId>)
        ensures
            listed@ == self.endpoints(atom_term),
    ;

    /// The equality-sharing capability, where the theory has it. The calls
    /// that the capability takes are calls that the theory takes.
    fn equality_sharing_mut(&mut self) -> (sharing: Option<&mut dyn EqualitySharing>)
        ensures
            sharing is Some <==> old(self).shares(),
            final(self).shares() == old(self).shares(),
            sharing is None ==> final(self).calls() == old(self).calls(),
            sharing matches Some(sh) ==> sh.calls() == old(self).calls() && final(self).calls()
                == final(sh).calls(),
    ;
}

} // verus!
