//! The atom table: which theory owns which asserted atom.

use crate::term::TermId;
use vstd::prelude::*;

verus! {

/// Position of a theory in the engine's registration list.
#[derive(Debug, Clone, Copy, PartialEq, Eq, Hash, Structural)]
pub struct TheoryId(pub usize);

/// An asserted atom and the theory that interprets it.
#[derive(Debug, Clone, Copy)]
pub struct Atom {
    pub term: TermId,
    pub theory: TheoryId,
}

/// The atoms asserted so far, in the order of their assertion.
#[derive(Debug)]
pub struct AtomTable {
    atoms: Vec<Atom>,
}

impl Default for AtomTable {
    fn default() -> (table: Self)
        ensures
            table@ == Seq::<Atom>::empty(),
    {
        AtomTable { atoms: Vec::new() }
    }
}

impl View for AtomTable {
    type V = Seq<Atom>;

    closed spec fn view(&self) -> Seq<Atom> {
        self.atoms@
    }
}

impl AtomTable {
    /// The number of atoms.
    pub fn len(&self) -> (n: usize)
        ensures
            n == self@.len(),
    {
        self.atoms.len()
    }

    /// Appends an atom.
    pub fn push(&mut self, atom: Atom)
        ensures
            final(self)@ == old(self)@.push(atom),
    {
        self.atoms.push(atom);
    }

    /// The atom at position `i`.
    pub fn get(&self, i: usize) -> (atom: Atom)
        requires
            i < self@.len(),
        ensures
            atom == self@[i as int],
    {
        self.atoms[i]
    }

    /// Whether every atom is owned by one of the first `n_theories`
    /// theories.
    pub fn owners_below(&self, n_theories: usize) -> (b: bool)
        ensures
            b <==> forall|i: int| 0 <= i < self@.len() ==> (#[trigger] self@[i]).theory.0 < n_theories,
    {
        let mut i: usize = 0;
        while i < self.atoms.len()
            invariant
                i <= self.atoms@.len(),
                forall|k: int| 0 <= k < i ==> (#[trigger] self.atoms@[k]).theory.0 < n_theories,
            decreases self.atoms@.len() - i,
        {
            if self.atoms[i].theory.0 >= n_theories {
                proof {
                    assert(self@[i as int].theory.0 >= n_theories);
                }
                return false;
            }
            i = i + 1;
        }
        true
    }

    /// The atoms in the order of their assertion.
    pub fn iter_atoms(&self) -> (all: Vec<Atom>)
        ensures
            all@ == self@,
    {
        let mut all: Vec<Atom> = Vec::new();
        let mut i: usize = 0;
        while i < self.atoms.len()
            invariant
                i <= self.atoms.len(),
                all@ == self.atoms@.subrange(0, i as int),
            decreases self.atoms.len() - i,
        {
            all.push(self.atoms[i]);
            i = i + 1;
            proof {
                assert(all@ =~= self.atoms@.subrange(0, i as int));
            }
        }
        proof {
            assert(self.atoms@.subrange(0, i as int) =~= self.atoms@);
        }
        all
    }
}

} // verus!
