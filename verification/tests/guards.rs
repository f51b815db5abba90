use smt_combine::atoms::{Atom, AtomTable, TheoryId};
use smt_combine::config::SharingConfig;
use smt_combine::engine::SmtEngine;
use smt_combine::eqshare_dot::shown_events_ok;
use smt_combine::eqshare_log::EqShareDiagnostic;
use smt_combine::eqshare_trace::EqShareEvent;
use smt_combine::reason::{Reason, ReasonArena, ReasonId};
use smt_combine::sat::{DummySat, Lit, VarId};
use smt_combine::session::Session;
use smt_combine::term::{Context, TermId};
use smt_combine::shared_terms::SharedTermOracle;
use smt_combine::theory::{EqualitySharing, SharedEq, Theory};
use smt_combine::theory_ctx::TheoryCtx;

struct Named(&'static str);

impl Theory for Named {
    fn name(&self) -> &'static str {
        self.0
    }

    fn atom_endpoints(&self, _atom_term: TermId) -> Vec<TermId> {
        Vec::new()
    }

    fn shares(&self) -> bool {
        false
    }

    fn equality_sharing_mut(&mut self) -> Option<&mut dyn EqualitySharing> {
        None
    }
}

/// A theory that takes what it is handed and exports nothing.
struct Taker(&'static str);

impl EqualitySharing for Taker {
    fn export_equalities(
        &mut self,
        _oracle: &SharedTermOracle,
        _export_epoch: u64,
        _tcx: &mut TheoryCtx,
    ) -> Vec<SharedEq> {
        Vec::new()
    }

    fn import_equality(&mut self, _eq: SharedEq, _tcx: &mut TheoryCtx) {}
}

impl Theory for Taker {
    fn name(&self) -> &'static str {
        self.0
    }

    fn atom_endpoints(&self, _atom_term: TermId) -> Vec<TermId> {
        Vec::new()
    }

    fn shares(&self) -> bool {
        true
    }

    fn equality_sharing_mut(&mut self) -> Option<&mut dyn EqualitySharing> {
        Some(self)
    }
}

fn engine() -> SmtEngine<DummySat> {
    let theories: Vec<Box<dyn Theory>> = vec![Box::new(Named("UF")), Box::new(Named("DL"))];
    SmtEngine::new(Context::new(), DummySat::default(), theories)
}

fn event(src: usize, dst: usize, a: u32, b: u32, explain: u32) -> EqShareEvent {
    EqShareEvent {
        epoch: 0,
        src: TheoryId(src),
        dst: TheoryId(dst),
        a: TermId(a),
        b: TermId(b),
        explain: ReasonId(explain),
    }
}

#[test]
fn policy_over_unregistered_theories_is_refused() {
    let make = |uf: usize, dl: usize| {
        let theories: Vec<Box<dyn Theory>> =
            vec![Box::new(Taker("A")), Box::new(Taker("B")), Box::new(Taker("C"))];
        SmtEngine::with_policy(
            Context::new(),
            DummySat::default(),
            theories,
            TheoryId(uf),
            TheoryId(dl),
            SharingConfig { uf_to_dl: false, dl_to_uf: true },
        )
    };
    assert!(make(3, 0).is_none());
    assert!(make(0, 3).is_none());
    assert!(make(usize::MAX, usize::MAX).is_none());
    let mut eng = match make(2, 0) {
        Some(eng) => eng,
        None => panic!("a policy over registered theories was refused"),
    };
    assert_eq!((eng.uf_id, eng.dl_id), (TheoryId(2), TheoryId(0)));
    assert!(!eng.config.sharing.uf_to_dl && eng.config.sharing.dl_to_uf);
    assert!(!eng.config.debug_eq.enabled);
    let leaf = eng.reasons.push(Reason::Atom(Lit::pos(VarId(0))));
    let eq = |a: u32| SharedEq { a: TermId(a), b: TermId(a), explain: leaf };
    eng.broadcast(&vec![(TheoryId(2), eq(1)), (TheoryId(0), eq(2)), (TheoryId(1), eq(3))]);
    let pairs: Vec<(usize, usize)> =
        eng.take_eqshare_events().iter().map(|ev| (ev.src.0, ev.dst.0)).collect();
    assert_eq!(pairs, vec![(2, 1), (0, 1), (0, 2), (1, 0), (1, 2)]);
}

#[test]
fn store_built_in_creation_order_is_well_formed() {
    let mut arena = ReasonArena::default();
    assert!(arena.is_well_formed());
    let a = arena.push(Reason::Atom(Lit::pos(VarId(1))));
    let b = arena.push(Reason::And(vec![a, a]));
    arena.push(Reason::And(vec![b, a]));
    arena.push(Reason::And(Vec::new()));
    assert!(arena.is_well_formed());
}

#[test]
fn node_that_names_itself_or_a_later_node_is_not_well_formed() {
    let mut own = ReasonArena::default();
    own.push(Reason::And(vec![ReasonId(0)]));
    assert!(!own.is_well_formed());
    let mut later = ReasonArena::default();
    later.push(Reason::Atom(Lit::pos(VarId(1))));
    later.push(Reason::And(vec![ReasonId(0), ReasonId(2)]));
    later.push(Reason::Atom(Lit::pos(VarId(2))));
    assert!(!later.is_well_formed());
}

#[test]
fn atoms_of_unregistered_theories_are_found() {
    let mut atoms = AtomTable::default();
    assert!(atoms.owners_below(0));
    atoms.push(Atom { term: TermId(1), theory: TheoryId(0) });
    atoms.push(Atom { term: TermId(2), theory: TheoryId(2) });
    assert!(atoms.owners_below(3));
    assert!(!atoms.owners_below(2));
    assert!(!atoms.owners_below(0));
}

#[test]
fn engine_is_ready_while_its_atoms_have_owners() {
    let mut eng = engine();
    assert!(eng.is_ready());
    eng.atoms.push(Atom { term: TermId(1), theory: TheoryId(1) });
    assert!(eng.is_ready());
    eng.atoms.push(Atom { term: TermId(1), theory: TheoryId(2) });
    assert!(!eng.is_ready());
}

#[test]
fn engine_with_a_broken_store_is_not_ready() {
    let mut eng = engine();
    eng.reasons.push(Reason::And(vec![ReasonId(7)]));
    assert!(!eng.is_ready());
    assert_eq!(eng.try_dump_conflict_reason_dot(ReasonId(0)), None);
    assert_eq!(eng.try_dump_eqshare_dot(), None);
    assert_eq!(
        eng.try_render_diagnostic(&EqShareDiagnostic::SharedStats { epoch: 0, shared_terms: 0 }),
        None
    );
}

#[test]
fn only_events_that_are_shown_have_to_be_renderable() {
    let events = vec![event(0, 1, 5, 6, 0), event(0, 1, 6, 5, 9), event(3, 1, 5, 6, 0)];
    assert!(!shown_events_ok(&events, 300, 1, 2));
    assert!(shown_events_ok(&events, 2, 1, 2));
    assert!(shown_events_ok(&events, 300, 1, 4));
    assert!(!shown_events_ok(&events, 1, 0, 2));
    assert!(shown_events_ok(&events, 0, 0, 0));
    assert!(shown_events_ok(&[], 300, 0, 0));
    let dangling = vec![event(0, 1, 5, 6, 1)];
    assert!(!shown_events_ok(&dangling, 300, 1, 2));
    assert!(shown_events_ok(&dangling, 300, 2, 2));
}

#[test]
fn guarded_renderings_answer_where_they_can() {
    let mut eng = engine();
    let leaf = eng.reasons.push(Reason::Atom(Lit::neg(VarId(8))));
    assert_eq!(
        eng.try_dump_conflict_reason_dot(leaf),
        Some(
            "digraph Reason {\n  rankdir=LR;\n  node [fontname=\"Helvetica\"];\n  \
             r0 [shape=ellipse,label=\"¬v8\"];\n}\n"
                .to_string()
        )
    );
    assert_eq!(eng.try_dump_conflict_reason_dot(ReasonId(1)), None);
    assert_eq!(
        eng.try_dump_eqshare_dot(),
        Some("digraph EqShare {\n  rankdir=LR;\n  node [fontname=\"Helvetica\"];\n}\n".to_string())
    );
    eng.eqshare_trace.push(event(0, 1, 4, 4, 0));
    assert_eq!(
        eng.try_dump_eqshare_dot(),
        Some(
            "digraph EqShare {\n  rankdir=LR;\n  node [fontname=\"Helvetica\"];\n  \
             t0 -> t0 [label=\"UF→DL @0\\n¬v8\"];\n  t0 [shape=ellipse,label=\"TermId(4)\"];\n}\n"
                .to_string()
        )
    );
    eng.eqshare_trace.push(event(0, 2, 4, 4, 0));
    assert_eq!(eng.try_dump_eqshare_dot(), None);
    let record = EqShareDiagnostic::Exchange(event(1, 0, 2, 3, 0));
    assert_eq!(
        eng.try_render_diagnostic(&record),
        Some("[eqshare][epoch=0]: DL -> UF TermId(2) = TermId(3)  because ¬v8".to_string())
    );
    assert_eq!(eng.try_render_diagnostic(&EqShareDiagnostic::Exchange(event(1, 0, 2, 3, 1))), None);
}

#[test]
fn session_reports_what_its_engine_was_configured_to_report() {
    let mut config = smt_combine::config::EngineConfig::default();
    smt_combine::test_debug::set_eqshare_debug_enabled(&mut config, true);
    let theories: Vec<Box<dyn Theory>> = vec![Box::new(Named("UF")), Box::new(Named("DL"))];
    let mut sess = Session::with_config(theories, config);
    sess.check_sat();
    sess.check_sat();
    let log = sess.take_eqshare_log();
    let lines: Vec<Option<String>> = log.iter().map(|r| sess.render_diagnostic(r)).collect();
    assert_eq!(
        lines,
        vec![
            Some("[eqshare][epoch=0]: shared_terms=0".to_string()),
            Some("[eqshare][epoch=1]: shared_terms=0".to_string()),
        ]
    );
    assert!(sess.take_eqshare_log().is_empty());
    let theories: Vec<Box<dyn Theory>> = Vec::new();
    let mut quiet = Session::new(theories);
    quiet.check_sat();
    assert!(quiet.take_eqshare_log().is_empty());
}
