//! Boolean literals and the interface of the propositional kernel.

use vstd::prelude::*;

verus! {

/// Index of a propositional variable.
#[derive(Debug, Clone, Copy, PartialEq, Eq, Hash, Structural)]
pub struct VarId(pub u32);

/// A propositional variable together with a polarity.
#[derive(Debug, Clone, Copy, PartialEq, Eq, Hash, Structural)]
pub struct Lit {
    var: VarId,
    sign: bool,
}

impl Lit {
    /// The variable of the literal.
    pub closed spec fn spec_var(self) -> VarId {
        self.var
    }

    /// Whether the literal is the positive one of its variable.
    pub closed spec fn spec_is_pos(self) -> bool {
        self.sign
    }

    /// A literal is determined by its variable and its polarity.
    pub proof fn lemma_extensional(self, other: Lit)
        requires
            self.spec_var() == other.spec_var(),
            self.spec_is_pos() == other.spec_is_pos(),
        ensures
            self == other,
    {
    }

    /// The positive literal of `v`.
    pub fn pos(v: VarId) -> (l: Self)
        ensures
            l.spec_var() == v,
            l.spec_is_pos(),
    {
        Self { var: v, sign: true }
    }

    /// The negative literal of `v`.
    pub fn neg(v: VarId) -> (l: Self)
        ensures
            l.spec_var() == v,
            !l.spec_is_pos(),
    {
        Self { var: v, sign: false }
    }

    #[verifier::when_used_as_spec(spec_var)]
    pub fn var(self) -> (v: VarId)
        ensures
            v == self.spec_var(),
    {
        self.var
    }

    #[verifier::when_used_as_spec(spec_is_pos)]
    pub fn is_pos(self) -> (b: bool)
        ensures
            b == self.spec_is_pos(),
    {
        self.sign
    }
}

/// What the engine expects of the propositional kernel.
pub trait SatKernel {
    /// Runs propagation; `Err` reports a conflict.
    fn propagate(&mut self) -> Result<(), ()>;
}

/// A kernel that never propagates and never conflicts.
pub struct DummySat;

impl Default for DummySat {
    fn default() -> (r: Self) {
        DummySat
    }
}

impl SatKernel for DummySat {
    fn propagate(&mut self) -> (r: Result<(), ()>)
        ensures
            r is Ok,
    {
        Ok(())
    }
}

} // verus!
