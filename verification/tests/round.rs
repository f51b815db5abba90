use smt_combine::atoms::{Atom, TheoryId};
use smt_combine::config::SharingConfig;
use smt_combine::engine::{CheckSat, SmtEngine};
use smt_combine::eqshare_log::EqShareDiagnostic;
use smt_combine::eqshare_trace::EqShareEvent;
use smt_combine::reason::{Reason, ReasonId};
use smt_combine::sat::{DummySat, Lit, VarId};
use smt_combine::shared_terms::SharedTermOracle;
use smt_combine::sharing::{allows, key_of, tag_exports};
use smt_combine::term::{Context, TermId};
use smt_combine::test_debug::set_eqshare_debug_enabled;
use smt_combine::theory::{EqualitySharing, SharedEq, Theory};
use smt_combine::theory_ctx::TheoryCtx;
use std::cell::RefCell;
use std::rc::Rc;

/// What the scripted theories have been asked to do, in the order of the
/// calls.
#[derive(Debug, Clone, PartialEq, Eq)]
enum Call {
    Export { theory: &'static str, epoch: u64, shared: Vec<u32> },
    Import { theory: &'static str, a: TermId, b: TermId, explain: ReasonId },
}

type Journal = Rc<RefCell<Vec<Call>>>;

/// A theory that exports a fixed list of equalities and records every call.
struct Scripted {
    name: &'static str,
    endpoints: Vec<TermId>,
    to_export: Vec<SharedEq>,
    shares: bool,
    conjoin_on_import: bool,
    observed: Vec<u32>,
    journal: Journal,
}

impl Scripted {
    fn new(name: &'static str, journal: &Journal, to_export: Vec<SharedEq>) -> Self {
        Scripted {
            name,
            endpoints: Vec::new(),
            to_export,
            shares: true,
            conjoin_on_import: false,
            observed: Vec::new(),
            journal: journal.clone(),
        }
    }
}

impl EqualitySharing for Scripted {
    fn export_equalities(
        &mut self,
        oracle: &SharedTermOracle,
        export_epoch: u64,
        _tcx: &mut TheoryCtx,
    ) -> Vec<SharedEq> {
        let shared: Vec<u32> =
            self.observed.iter().copied().filter(|t| oracle.is_shared(TermId(*t))).collect();
        self.journal.borrow_mut().push(Call::Export { theory: self.name, epoch: export_epoch, shared });
        self.to_export.clone()
    }

    fn import_equality(&mut self, eq: SharedEq, tcx: &mut TheoryCtx) {
        if self.conjoin_on_import {
            tcx.r_and(vec![eq.explain, eq.explain]);
        }
        self.journal.borrow_mut().push(Call::Import {
            theory: self.name,
            a: eq.a,
            b: eq.b,
            explain: eq.explain,
        });
    }
}

impl Theory for Scripted {
    fn name(&self) -> &'static str {
        self.name
    }

    fn atom_endpoints(&self, _atom_term: TermId) -> Vec<TermId> {
        self.endpoints.clone()
    }

    fn shares(&self) -> bool {
        self.shares
    }

    fn equality_sharing_mut(&mut self) -> Option<&mut dyn EqualitySharing> {
        if self.shares {
            Some(self)
        } else {
            None
        }
    }
}

fn engine(theories: Vec<Scripted>) -> SmtEngine<DummySat> {
    let boxed: Vec<Box<dyn Theory>> =
        theories.into_iter().map(|t| Box::new(t) as Box<dyn Theory>).collect();
    SmtEngine::new(Context::new(), DummySat::default(), boxed)
}

fn eq(a: u32, b: u32, explain: ReasonId) -> SharedEq {
    SharedEq { a: TermId(a), b: TermId(b), explain }
}

fn import(theory: &'static str, a: u32, b: u32, explain: ReasonId) -> Call {
    Call::Import { theory, a: TermId(a), b: TermId(b), explain }
}

fn imports(journal: &Journal) -> Vec<Call> {
    journal.borrow().iter().filter(|c| matches!(c, Call::Import { .. })).cloned().collect()
}

fn fields(ev: &EqShareEvent) -> (u64, usize, usize, u32, u32, u32) {
    (ev.epoch, ev.src.0, ev.dst.0, ev.a.0, ev.b.0, ev.explain.0)
}

fn exchanges(log: &[EqShareDiagnostic]) -> Vec<(u64, usize, usize, u32, u32, u32)> {
    log.iter()
        .map(|record| match record {
            EqShareDiagnostic::Exchange(ev) => fields(ev),
            other => panic!("unexpected record {:?}", other),
        })
        .collect()
}

/// An engine over UF and DL with one leaf in its store; UF exports what is
/// given.
fn uf_and_dl(uf_exports: &[(u32, u32)], dl_exports: &[(u32, u32)]) -> (SmtEngine<DummySat>, Journal, ReasonId) {
    let journal: Journal = Rc::new(RefCell::new(Vec::new()));
    let leaf = ReasonId(0);
    let uf = Scripted::new("UF", &journal, uf_exports.iter().map(|(a, b)| eq(*a, *b, leaf)).collect());
    let dl = Scripted::new("DL", &journal, dl_exports.iter().map(|(a, b)| eq(*a, *b, leaf)).collect());
    let mut eng = engine(vec![uf, dl]);
    assert_eq!(eng.reasons.push(Reason::Atom(Lit::pos(VarId(3)))), leaf);
    (eng, journal, leaf)
}

#[test]
fn new_engine_is_empty() {
    let eng = engine(Vec::new());
    assert_eq!((eng.uf_id, eng.dl_id), (TheoryId(0), TheoryId(1)));
    assert_eq!(eng.atoms.len(), 0);
    assert_eq!(eng.reasons.len(), 0);
    assert_eq!(eng.export_epoch, 0);
    assert_eq!(eng.last_atom_count, 0);
    assert_eq!(eng.shared_terms.epoch(), 0);
    assert!(!eng.config.debug_eq.enabled);
    assert!(eng.eqshare_trace.events().is_empty());
    assert!(eng.eqshare_log.is_empty());
    assert!(eng.theory_names().is_empty());
}

#[test]
fn one_round_delivers_the_exported_equality() {
    let (mut eng, journal, leaf) = uf_and_dl(&[(10, 11)], &[]);
    let answer = eng.check_sat();
    assert!(matches!(answer, CheckSat::Unknown));
    assert_eq!(eng.export_epoch, 1);
    assert_eq!(imports(&journal), vec![import("DL", 10, 11, leaf)]);
    assert_eq!(eng.reasons.expand_lits(leaf), vec![Lit::pos(VarId(3))]);
    let events = eng.take_eqshare_events();
    assert_eq!(events.iter().map(fields).collect::<Vec<_>>(), vec![(0, 0, 1, 10, 11, 0)]);
    assert!(eng.take_eqshare_events().is_empty());
    assert!(eng.take_eqshare_log().is_empty());
}

#[test]
fn exports_are_collected_before_anything_is_imported() {
    let (mut eng, journal, leaf) = uf_and_dl(&[(1, 2)], &[(3, 4)]);
    eng.equality_sharing_round();
    assert_eq!(
        journal.borrow().clone(),
        vec![
            Call::Export { theory: "UF", epoch: 0, shared: Vec::new() },
            Call::Export { theory: "DL", epoch: 0, shared: Vec::new() },
            import("DL", 1, 2, leaf),
            import("UF", 3, 4, leaf),
        ]
    );
}

#[test]
fn closed_direction_is_neither_delivered_nor_reported() {
    let (mut eng, journal, leaf) = uf_and_dl(&[(1, 2)], &[(3, 4)]);
    eng.config.sharing.uf_to_dl = false;
    set_eqshare_debug_enabled(&mut eng.config, true);
    eng.config.debug_eq.log_shared_stats = false;
    eng.equality_sharing_round();
    assert_eq!(imports(&journal), vec![import("UF", 3, 4, leaf)]);
    let events = eng.take_eqshare_events();
    assert_eq!(events.iter().map(fields).collect::<Vec<_>>(), vec![(0, 1, 0, 3, 4, 0)]);
    assert_eq!(exchanges(&eng.take_eqshare_log()), vec![(0, 1, 0, 3, 4, 0)]);
}

#[test]
fn both_directions_can_be_closed() {
    let (mut eng, journal, _leaf) = uf_and_dl(&[(1, 2)], &[(3, 4)]);
    eng.config.sharing = SharingConfig { uf_to_dl: false, dl_to_uf: false };
    eng.equality_sharing_round();
    assert!(imports(&journal).is_empty());
    assert!(eng.take_eqshare_events().is_empty());
    assert_eq!(eng.export_epoch, 1);
}

#[test]
fn policy_names_only_the_two_built_in_theories() {
    let closed = SharingConfig { uf_to_dl: false, dl_to_uf: false };
    let (uf, dl, other) = (TheoryId(0), TheoryId(1), TheoryId(2));
    assert!(!allows(&closed, uf, dl, uf, dl));
    assert!(!allows(&closed, uf, dl, dl, uf));
    assert!(allows(&closed, uf, dl, uf, other));
    assert!(allows(&closed, uf, dl, other, dl));
    assert!(allows(&closed, uf, dl, uf, uf));
    let one_way = SharingConfig { uf_to_dl: true, dl_to_uf: false };
    assert!(allows(&one_way, uf, dl, uf, dl));
    assert!(!allows(&one_way, uf, dl, dl, uf));
    assert!(allows(&one_way, dl, uf, uf, dl) == false);
}

#[test]
fn repeated_equality_is_reported_once_and_delivered_twice() {
    let (mut eng, journal, leaf) = uf_and_dl(&[(5, 6), (6, 5)], &[]);
    set_eqshare_debug_enabled(&mut eng.config, true);
    eng.config.debug_eq.log_shared_stats = false;
    eng.equality_sharing_round();
    assert_eq!(imports(&journal), vec![import("DL", 5, 6, leaf), import("DL", 6, 5, leaf)]);
    assert_eq!(eng.take_eqshare_events().len(), 2);
    assert_eq!(exchanges(&eng.take_eqshare_log()), vec![(0, 0, 1, 5, 6, 0)]);
    eng.equality_sharing_round();
    assert_eq!(imports(&journal).len(), 4);
    assert_eq!(exchanges(&eng.take_eqshare_log()), vec![(1, 0, 1, 5, 6, 0)]);
}

#[test]
fn dedup_key_ignores_the_order_of_the_terms() {
    let ev = EqShareEvent {
        epoch: 9,
        src: TheoryId(1),
        dst: TheoryId(0),
        a: TermId(8),
        b: TermId(3),
        explain: ReasonId(5),
    };
    let swapped = EqShareEvent { a: TermId(3), b: TermId(8), explain: ReasonId(6), ..ev.clone() };
    assert_eq!(key_of(&ev), (1, 0, 3, 8, 9));
    assert_eq!(key_of(&swapped), (1, 0, 3, 8, 9));
    let same = EqShareEvent { a: TermId(4), b: TermId(4), ..ev.clone() };
    assert_eq!(key_of(&same), (1, 0, 4, 4, 9));
}

#[test]
fn nothing_is_reported_while_diagnostics_are_off() {
    let (mut eng, journal, _leaf) = uf_and_dl(&[(5, 6)], &[]);
    eng.equality_sharing_round();
    assert_eq!(imports(&journal).len(), 1);
    assert_eq!(eng.take_eqshare_events().len(), 1);
    assert!(eng.take_eqshare_log().is_empty());
    eng.config.debug_eq.enabled = true;
    eng.config.debug_eq.log_exports = false;
    eng.config.debug_eq.log_imports = false;
    eng.equality_sharing_round();
    let log = eng.take_eqshare_log();
    assert_eq!(log.len(), 1);
    assert!(matches!(log[0], EqShareDiagnostic::SharedStats { epoch: 1, shared_terms: 0 }));
}

#[test]
fn no_theory_receives_its_own_equality() {
    let journal: Journal = Rc::new(RefCell::new(Vec::new()));
    let only = Scripted::new("UF", &journal, vec![eq(1, 2, ReasonId(0))]);
    let mut eng = engine(vec![only]);
    eng.reasons.push(Reason::Atom(Lit::pos(VarId(0))));
    eng.equality_sharing_round();
    assert!(imports(&journal).is_empty());
    assert!(eng.take_eqshare_events().is_empty());
    assert_eq!(eng.export_epoch, 1);
}

#[test]
fn receivers_come_in_registration_order() {
    let journal: Journal = Rc::new(RefCell::new(Vec::new()));
    let leaf = ReasonId(0);
    let a = Scripted::new("A", &journal, vec![eq(1, 2, leaf)]);
    let mut b = Scripted::new("B", &journal, vec![eq(3, 4, leaf), eq(5, 6, leaf)]);
    b.conjoin_on_import = true;
    let mut c = Scripted::new("C", &journal, vec![eq(7, 8, leaf)]);
    c.shares = false;
    let d = Scripted::new("D", &journal, Vec::new());
    let mut eng = engine(vec![a, b, c, d]);
    eng.reasons.push(Reason::Atom(Lit::neg(VarId(2))));
    assert_eq!(eng.theory_names(), vec!["A", "B", "C", "D"]);
    eng.equality_sharing_round();
    assert_eq!(
        imports(&journal),
        vec![
            import("B", 1, 2, leaf),
            import("D", 1, 2, leaf),
            import("A", 3, 4, leaf),
            import("D", 3, 4, leaf),
            import("A", 5, 6, leaf),
            import("D", 5, 6, leaf),
        ]
    );
    let pairs: Vec<(usize, usize, u32)> =
        eng.take_eqshare_events().iter().map(|ev| (ev.src.0, ev.dst.0, ev.a.0)).collect();
    assert_eq!(
        pairs,
        vec![(0, 1, 1), (0, 3, 1), (1, 0, 3), (1, 3, 3), (1, 0, 5), (1, 3, 5)]
    );
    assert_eq!(eng.reasons.len(), 2);
    assert_eq!(eng.reasons.expand_lits(ReasonId(1)), vec![Lit::neg(VarId(2)), Lit::neg(VarId(2))]);
}

#[test]
fn same_exports_give_the_same_round() {
    let run = || {
        let (mut eng, journal, _leaf) = uf_and_dl(&[(5, 6), (7, 8), (6, 5)], &[(9, 9), (5, 6)]);
        set_eqshare_debug_enabled(&mut eng.config, true);
        eng.equality_sharing_round();
        eng.equality_sharing_round();
        let calls = journal.borrow().clone();
        let events: Vec<_> = eng.take_eqshare_events().iter().map(fields).collect();
        let log = format!("{:?}", eng.take_eqshare_log());
        (calls, events, log)
    };
    let (calls, events, log) = run();
    assert_eq!(run(), (calls, events.clone(), log));
    let (first, second) = events.split_at(events.len() / 2);
    assert_eq!(first.len(), 5);
    let relabelled: Vec<_> = first.iter().map(|e| (1, e.1, e.2, e.3, e.4, e.5)).collect();
    assert_eq!(second.to_vec(), relabelled);
}

#[test]
fn exports_see_the_oracle_of_the_round() {
    let journal: Journal = Rc::new(RefCell::new(Vec::new()));
    let mut a = Scripted::new("UF", &journal, Vec::new());
    let mut b = Scripted::new("DL", &journal, Vec::new());
    a.endpoints = vec![TermId(1), TermId(2)];
    b.endpoints = vec![TermId(2), TermId(3)];
    a.observed = vec![1, 2, 3];
    b.observed = vec![1, 2, 3];
    let mut eng = engine(vec![a, b]);
    eng.atoms.push(Atom { term: TermId(100), theory: TheoryId(0) });
    eng.atoms.push(Atom { term: TermId(101), theory: TheoryId(1) });
    set_eqshare_debug_enabled(&mut eng.config, true);
    eng.equality_sharing_round();
    assert_eq!(
        journal.borrow().clone(),
        vec![
            Call::Export { theory: "UF", epoch: 0, shared: vec![2] },
            Call::Export { theory: "DL", epoch: 0, shared: vec![2] },
        ]
    );
    assert_eq!(eng.shared_terms.epoch(), 1);
    assert_eq!(eng.last_atom_count, 2);
    assert!(eng.shared_terms.is_shared(TermId(2)));
    assert!(!eng.shared_terms.is_shared(TermId(1)));
    assert!(!eng.shared_terms.is_shared(TermId(3)));
    assert_eq!(eng.shared_terms.shared_count(), 1);
    let log = eng.take_eqshare_log();
    assert_eq!(log.len(), 1);
    assert!(matches!(log[0], EqShareDiagnostic::SharedStats { epoch: 0, shared_terms: 1 }));
    assert_eq!(eng.render_diagnostic(&log[0]), "[eqshare][epoch=0]: shared_terms=1");
    eng.equality_sharing_round();
    assert_eq!(eng.shared_terms.epoch(), 1);
    assert_eq!(eng.export_epoch, 2);
}

#[test]
fn shared_terms_are_refreshed_when_the_atoms_change() {
    let journal: Journal = Rc::new(RefCell::new(Vec::new()));
    let mut a = Scripted::new("UF", &journal, Vec::new());
    let mut b = Scripted::new("DL", &journal, Vec::new());
    a.endpoints = vec![TermId(1)];
    b.endpoints = vec![TermId(1)];
    let mut eng = engine(vec![a, b]);
    eng.maybe_recompute_shared_terms();
    assert_eq!(eng.shared_terms.epoch(), 0);
    eng.atoms.push(Atom { term: TermId(9), theory: TheoryId(0) });
    eng.maybe_recompute_shared_terms();
    assert_eq!(eng.shared_terms.epoch(), 1);
    assert!(!eng.shared_terms.is_shared(TermId(1)));
    eng.maybe_recompute_shared_terms();
    assert_eq!(eng.shared_terms.epoch(), 1);
    eng.atoms.push(Atom { term: TermId(9), theory: TheoryId(1) });
    eng.maybe_recompute_shared_terms();
    assert_eq!(eng.shared_terms.epoch(), 2);
    assert_eq!(eng.last_atom_count, 2);
    assert!(eng.shared_terms.is_shared(TermId(1)));
}

#[test]
fn round_counter_wraps() {
    let (mut eng, _journal, _leaf) = uf_and_dl(&[(1, 2)], &[]);
    eng.export_epoch = u64::MAX;
    eng.equality_sharing_round();
    assert_eq!(eng.export_epoch, 0);
    let events = eng.take_eqshare_events();
    assert_eq!(events[0].epoch, u64::MAX);
}

#[test]
fn collecting_and_delivering_can_be_done_apart() {
    let (mut eng, journal, leaf) = uf_and_dl(&[(1, 2)], &[(3, 4)]);
    let exported = eng.collect_exports();
    let tagged: Vec<(usize, u32, u32)> = exported.iter().map(|(t, e)| (t.0, e.a.0, e.b.0)).collect();
    assert_eq!(tagged, vec![(0, 1, 2), (1, 3, 4)]);
    assert!(imports(&journal).is_empty());
    assert!(eng.eqshare_trace.events().is_empty());
    eng.broadcast(&exported);
    eng.broadcast(&vec![(TheoryId(1), eq(7, 7, leaf))]);
    assert_eq!(
        imports(&journal),
        vec![import("DL", 1, 2, leaf), import("UF", 3, 4, leaf), import("UF", 7, 7, leaf)]
    );
    assert_eq!(eng.export_epoch, 0);
    assert_eq!(eng.eqshare_trace.events().len(), 3);
}

#[test]
fn exports_are_tagged_with_their_exporter() {
    let leaf = ReasonId(0);
    let mut exported = vec![(TheoryId(0), eq(1, 2, leaf))];
    tag_exports(&mut exported, TheoryId(3), &vec![eq(5, 6, leaf), eq(7, 8, ReasonId(4))]);
    tag_exports(&mut exported, TheoryId(4), &Vec::new());
    tag_exports(&mut exported, TheoryId(5), &vec![eq(9, 9, leaf)]);
    let tagged: Vec<(usize, u32, u32, u32)> =
        exported.iter().map(|(t, e)| (t.0, e.a.0, e.b.0, e.explain.0)).collect();
    assert_eq!(tagged, vec![(0, 1, 2, 0), (3, 5, 6, 0), (3, 7, 8, 4), (5, 9, 9, 0)]);
}

#[test]
fn theory_without_the_capability_exports_and_imports_nothing() {
    let journal: Journal = Rc::new(RefCell::new(Vec::new()));
    let leaf = ReasonId(0);
    let mut silent = Scripted::new("A", &journal, vec![eq(1, 2, leaf)]);
    silent.shares = false;
    let b = Scripted::new("B", &journal, vec![eq(3, 4, leaf), eq(5, 6, leaf)]);
    let mut eng = engine(vec![silent, b]);
    eng.reasons.push(Reason::Atom(Lit::pos(VarId(1))));
    let exported = eng.collect_exports();
    let tagged: Vec<(usize, u32, u32)> = exported.iter().map(|(t, e)| (t.0, e.a.0, e.b.0)).collect();
    assert_eq!(tagged, vec![(1, 3, 4), (1, 5, 6)]);
    assert_eq!(
        journal.borrow().clone(),
        vec![Call::Export { theory: "B", epoch: 0, shared: Vec::new() }]
    );
    eng.broadcast(&exported);
    assert!(imports(&journal).is_empty());
    assert!(eng.eqshare_trace.events().is_empty());
    assert_eq!(eng.reasons.len(), 1);
}

#[test]
fn reported_delivery_is_put_into_words() {
    let (mut eng, _journal, leaf) = uf_and_dl(&[], &[(5, 6)]);
    let other = eng.reasons.push(Reason::Atom(Lit::neg(VarId(4))));
    let both = eng.reasons.push(Reason::And(vec![other, leaf]));
    eng.config.debug_eq.enabled = true;
    eng.config.debug_eq.log_shared_stats = false;
    eng.broadcast(&vec![(TheoryId(1), eq(5, 6, both))]);
    let log = eng.take_eqshare_log();
    assert_eq!(log.len(), 1);
    assert!(eng.renderable(&log[0]));
    assert_eq!(
        eng.render_diagnostic(&log[0]),
        "[eqshare][epoch=0]: DL -> UF TermId(5) = TermId(6)  because v3, ¬v4"
    );
    eng.config.debug_eq.max_reason_lits = 1;
    assert_eq!(
        eng.render_diagnostic(&log[0]),
        "[eqshare][epoch=0]: DL -> UF TermId(5) = TermId(6)  because v3, ..."
    );
    let foreign = EqShareDiagnostic::Exchange(EqShareEvent {
        epoch: 0,
        src: TheoryId(0),
        dst: TheoryId(2),
        a: TermId(1),
        b: TermId(2),
        explain: leaf,
    });
    assert!(!eng.renderable(&foreign));
    let dangling = EqShareDiagnostic::Exchange(EqShareEvent {
        epoch: 0,
        src: TheoryId(0),
        dst: TheoryId(1),
        a: TermId(1),
        b: TermId(2),
        explain: ReasonId(3),
    });
    assert!(!eng.renderable(&dangling));
    assert!(eng.renderable(&EqShareDiagnostic::SharedStats { epoch: 3, shared_terms: 0 }));
}

#[test]
fn engine_renders_its_trace_and_its_store() {
    let (mut eng, _journal, leaf) = uf_and_dl(&[(5, 5)], &[]);
    eng.equality_sharing_round();
    assert_eq!(
        eng.dump_eqshare_dot(),
        "digraph EqShare {\n  rankdir=LR;\n  node [fontname=\"Helvetica\"];\n  \
         t0 -> t0 [label=\"UF→DL @0\\nv3\"];\n  t0 [shape=ellipse,label=\"TermId(5)\"];\n}\n"
    );
    assert_eq!(
        eng.dump_conflict_reason_dot(leaf),
        "digraph Reason {\n  rankdir=LR;\n  node [fontname=\"Helvetica\"];\n  \
         r0 [shape=ellipse,label=\"v3\"];\n}\n"
    );
}
