use smt_combine::atoms::{Atom, AtomTable, TheoryId};
use smt_combine::config::{DebugEqSharing, EngineConfig, SharingConfig};
use smt_combine::eqshare_trace::{EqShareEvent, EqShareTrace};
use smt_combine::reason::{Reason, ReasonArena, ReasonId};
use smt_combine::sat::{DummySat, Lit, SatKernel, VarId};
use smt_combine::term::TermId;
use smt_combine::test_debug::{eqshare_debug_enabled, set_eqshare_debug_enabled};
use smt_combine::theory_ctx::TheoryCtx;

fn lit(v: u32) -> Lit {
    Lit::pos(VarId(v))
}

fn sorted(mut lits: Vec<Lit>) -> Vec<(u32, bool)> {
    let mut keys: Vec<(u32, bool)> = lits.drain(..).map(|l| (l.var().0, l.is_pos())).collect();
    keys.sort();
    keys
}

#[test]
fn literal_keeps_variable_and_sign() {
    let p = Lit::pos(VarId(7));
    let n = Lit::neg(VarId(7));
    assert_eq!(p.var(), VarId(7));
    assert_eq!(n.var(), VarId(7));
    assert!(p.is_pos());
    assert!(!n.is_pos());
    assert_ne!(p, n);
    assert_eq!(p, Lit::pos(VarId(7)));
}

#[test]
fn dummy_kernel_never_conflicts() {
    let mut sat = DummySat::default();
    assert_eq!(sat.propagate(), Ok(()));
    assert_eq!(sat.propagate(), Ok(()));
}

#[test]
fn handles_are_issued_in_creation_order() {
    let mut arena = ReasonArena::default();
    assert_eq!(arena.len(), 0);
    let a = arena.push(Reason::Atom(lit(1)));
    let b = arena.push(Reason::Atom(lit(2)));
    let c = arena.push(Reason::And(vec![a, b]));
    assert_eq!((a, b, c), (ReasonId(0), ReasonId(1), ReasonId(2)));
    assert_eq!(arena.len(), 3);
    assert!(matches!(arena.get(a), Reason::Atom(l) if *l == lit(1)));
    assert!(matches!(arena.get(c), Reason::And(kids) if *kids == vec![a, b]));
}

#[test]
fn expansion_of_a_leaf_is_its_literal() {
    let mut arena = ReasonArena::default();
    let a = arena.push(Reason::Atom(Lit::neg(VarId(9))));
    assert_eq!(arena.expand_lits(a), vec![Lit::neg(VarId(9))]);
}

#[test]
fn expansion_visits_the_last_child_first() {
    let mut arena = ReasonArena::default();
    let a = arena.push(Reason::Atom(lit(1)));
    let b = arena.push(Reason::Atom(lit(2)));
    let c = arena.push(Reason::Atom(lit(3)));
    let ab = arena.push(Reason::And(vec![a, b]));
    let root = arena.push(Reason::And(vec![ab, c]));
    assert_eq!(arena.expand_lits(root), vec![lit(3), lit(2), lit(1)]);
    assert_eq!(arena.expand_lits(ab), vec![lit(2), lit(1)]);
}

#[test]
fn expansion_repeats_a_leaf_for_each_path() {
    let mut arena = ReasonArena::default();
    let a = arena.push(Reason::Atom(lit(1)));
    let left = arena.push(Reason::And(vec![a]));
    let right = arena.push(Reason::And(vec![a, a]));
    let root = arena.push(Reason::And(vec![left, right]));
    assert_eq!(arena.expand_lits(root), vec![lit(1), lit(1), lit(1)]);
}

#[test]
fn expansion_of_an_empty_conjunction_is_empty() {
    let mut arena = ReasonArena::default();
    let top = arena.push(Reason::And(Vec::new()));
    assert!(arena.expand_lits(top).is_empty());
}

#[test]
fn expansion_of_a_pair_has_the_literals_of_both() {
    let mut arena = ReasonArena::default();
    let a = arena.push(Reason::Atom(lit(1)));
    let b = arena.push(Reason::Atom(Lit::neg(VarId(2))));
    let c = arena.push(Reason::Atom(lit(1)));
    let h1 = arena.push(Reason::And(vec![a, b]));
    let h2 = arena.push(Reason::And(vec![c, b, a]));
    let first = arena.expand_lits(h1);
    let second = arena.expand_lits(h2);
    let both = TheoryCtx::new(&mut arena).r_and(vec![h1, h2]);
    let mut expected = first.clone();
    expected.extend(second.iter().copied());
    assert_eq!(sorted(arena.expand_lits(both)), sorted(expected));
    assert_eq!(arena.expand_lits(h1), first);
    assert_eq!(arena.expand_lits(h2), second);
}

#[test]
fn conjunction_of_one_is_that_one() {
    let mut arena = ReasonArena::default();
    let a = arena.push(Reason::Atom(lit(4)));
    let before = arena.len();
    let same = TheoryCtx::new(&mut arena).r_and(vec![a]);
    assert_eq!(same, a);
    assert_eq!(arena.len(), before);
}

#[test]
fn conjunction_of_none_or_several_is_a_new_node() {
    let mut arena = ReasonArena::default();
    let a = arena.push(Reason::Atom(lit(4)));
    let b = arena.push(Reason::Atom(lit(5)));
    let mut tcx = TheoryCtx::new(&mut arena);
    let none = tcx.r_and(Vec::new());
    let two = tcx.r_and(vec![a, b]);
    assert_eq!(none, ReasonId(2));
    assert_eq!(two, ReasonId(3));
    assert_eq!(arena.len(), 4);
    assert!(matches!(arena.get(none), Reason::And(kids) if kids.is_empty()));
    assert!(matches!(arena.get(two), Reason::And(kids) if *kids == vec![a, b]));
}

#[test]
fn atom_table_keeps_the_order_of_assertion() {
    let mut table = AtomTable::default();
    assert_eq!(table.len(), 0);
    table.push(Atom { term: TermId(5), theory: TheoryId(1) });
    table.push(Atom { term: TermId(3), theory: TheoryId(0) });
    assert_eq!(table.len(), 2);
    let all: Vec<(TermId, TheoryId)> = table.iter_atoms().into_iter().map(|a| (a.term, a.theory)).collect();
    assert_eq!(all, vec![(TermId(5), TheoryId(1)), (TermId(3), TheoryId(0))]);
    assert_eq!(table.get(1).term, TermId(3));
}

#[test]
fn default_configuration_allows_everything_and_reports_nothing() {
    let sharing = SharingConfig::default();
    assert!(sharing.uf_to_dl && sharing.dl_to_uf);
    let debug = DebugEqSharing::default();
    assert!(!debug.enabled);
    assert_eq!(debug.max_reason_lits, 8);
    assert!(debug.log_imports && debug.log_exports && debug.log_shared_stats);
    let config = EngineConfig::default();
    assert!(config.sharing.uf_to_dl && config.sharing.dl_to_uf);
    assert!(!config.debug_eq.enabled);
    assert_eq!(config.debug_eq.max_reason_lits, 8);
}

#[test]
fn debug_switch_is_idempotent() {
    let mut config = EngineConfig::default();
    config.debug_eq.log_imports = false;
    assert!(!eqshare_debug_enabled(&config));
    set_eqshare_debug_enabled(&mut config, true);
    assert!(eqshare_debug_enabled(&config));
    assert_eq!(config.debug_eq.max_reason_lits, 16);
    set_eqshare_debug_enabled(&mut config, true);
    assert!(config.debug_eq.enabled);
    assert_eq!(config.debug_eq.max_reason_lits, 16);
    assert!(!config.debug_eq.log_imports);
    set_eqshare_debug_enabled(&mut config, false);
    assert!(!eqshare_debug_enabled(&config));
    assert_eq!(config.debug_eq.max_reason_lits, 16);
    set_eqshare_debug_enabled(&mut config, false);
    assert!(!config.debug_eq.enabled);
    assert_eq!(config.debug_eq.max_reason_lits, 16);
    let mut untouched = EngineConfig::default();
    set_eqshare_debug_enabled(&mut untouched, false);
    assert_eq!(untouched.debug_eq.max_reason_lits, 8);
    assert!(config.sharing.uf_to_dl && config.sharing.dl_to_uf);
}

fn event(epoch: u64, a: u32, b: u32) -> EqShareEvent {
    EqShareEvent {
        epoch,
        src: TheoryId(0),
        dst: TheoryId(1),
        a: TermId(a),
        b: TermId(b),
        explain: ReasonId(0),
    }
}

#[test]
fn trace_is_drained_by_take() {
    let mut trace = EqShareTrace::default();
    assert!(trace.events().is_empty());
    trace.push(event(0, 1, 2));
    trace.push(event(1, 3, 4));
    assert_eq!(trace.events().len(), 2);
    assert_eq!(trace.events()[1].a, TermId(3));
    let copy = trace.events()[0].clone_event();
    assert_eq!((copy.epoch, copy.a, copy.b), (0, TermId(1), TermId(2)));
    let taken = trace.take();
    assert_eq!(taken.len(), 2);
    assert_eq!(taken[0].b, TermId(2));
    assert_eq!(taken[1].epoch, 1);
    assert!(trace.events().is_empty());
    assert!(trace.take().is_empty());
}

#[test]
fn trace_is_emptied_by_clear() {
    let mut trace = EqShareTrace::default();
    trace.push(event(0, 1, 2));
    trace.clear();
    assert!(trace.events().is_empty());
    trace.push(event(2, 5, 6));
    assert_eq!(trace.events().len(), 1);
    assert_eq!(trace.events()[0].epoch, 2);
}
