//! What a test harness expects of a check, and whether an answer meets it.

use crate::engine::CheckSat;
use vstd::prelude::*;

verus! {

/// The answer that a harness expects.
#[derive(Clone, Copy, Debug, PartialEq, Eq)]
pub enum Expect {
    Sat,
    Unsat,
}

/// A requirement on an unsatisfiable core: it holds one of the labels.
#[derive(Debug, Clone)]
pub struct CoreReq {
    pub any_of: &'static [&'static str],
    pub name: &'static str,
}

/// The answer is the expected one. `Unknown` meets no expectation.
pub open spec fn meets(expect: Expect, got: CheckSat) -> bool {
    match (expect, got) {
        (Expect::Sat, CheckSat::Sat) => true,
        (Expect::Unsat, CheckSat::Unsat) => true,
        _ => false,
    }
}

/// Whether the answer is the expected one. Where it is not, a harness runs
/// the instance again on an engine with diagnostics switched on.
pub fn expectation_met(expect: Expect, got: &CheckSat) -> (ok: bool)
    ensures
        ok == meets(expect, *got),
{
    match (expect, got) {
        (Expect::Sat, CheckSat::Sat) => true,
        (Expect::Unsat, CheckSat::Unsat) => true,
        _ => false,
    }
}

} // verus!
