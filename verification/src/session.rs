//! A session: a term store, an engine over a fixed list of theories, and the
//! formulas asserted so far.

use crate::config::EngineConfig;
use crate::engine::{CheckSat, SmtEngine};
use crate::eqshare_log::EqShareDiagnostic;
use crate::atoms::{Atom, TheoryId};
use crate::eqshare_trace::EqShareEvent;
use crate::reason::ReasonNode;
use crate::sat::DummySat;
use crate::term::{Context, SortId, SortKindView, TermId, TermKindView};
use crate::theory::Theory;
use vstd::prelude::*;

verus! {

/// The label of an asserted formula.
#[derive(Debug, Clone)]
pub struct Label(pub String);

/// A term store with an engine. Asserted formulas are stored; they are not
/// handed to the engine.
pub struct Session {
    ctx: Context,
    eng: SmtEngine<DummySat>,
    asserted: Vec<(TermId, Option<Label>)>,
}

impl Session {
    /// The term store of the session.
    pub closed spec fn context(&self) -> Context {
        self.ctx
    }

    /// The engine of the session.
    pub closed spec fn engine(&self) -> SmtEngine<DummySat> {
        self.eng
    }

    /// The asserted formulas, each with its label, oldest first.
    pub closed spec fn asserted(&self) -> Seq<(TermId, Option<Seq<char>>)> {
        self.asserted@.map_values(
            |entry: (TermId, Option<Label>)|
                (
                    entry.0,
                    match entry.1 {
                        Some(label) => Some(label.0@),
                        None => None,
                    },
                ),
        )
    }

    /// The term store is well formed and the engine is ready for a round.
    pub open spec fn wf(&self) -> bool {
        self.context().wf() && self.engine().ready()
    }

    /// The session has just been made over `theories`, with `config` for
    /// its engine: nothing is declared, asserted, or exchanged yet.
    pub open spec fn fresh(&self, theories: Vec<Box<dyn Theory>>, config: EngineConfig) -> bool {
        &&& self.wf()
        &&& self.context().sorts() == seq![SortKindView::Int]
        &&& self.context().terms() == Seq::<(TermKindView, SortId)>::empty()
        &&& self.asserted() == Seq::<(TermId, Option<Seq<char>>)>::empty()
        &&& self.engine().theories == theories
        &&& self.engine().config == config
        &&& self.engine().uf_id == TheoryId(0)
        &&& self.engine().dl_id == TheoryId(1)
        &&& self.engine().atoms@ == Seq::<Atom>::empty()
        &&& self.engine().reasons@ == Seq::<ReasonNode>::empty()
        &&& self.engine().shared_terms.terms() == Set::<TermId>::empty()
        &&& self.engine().shared_terms.epoch() == 0
        &&& self.engine().export_epoch == 0
        &&& self.engine().last_atom_count == 0
        &&& self.engine().eqshare_trace@ == Seq::<EqShareEvent>::empty()
        &&& self.engine().eqshare_log@ == Seq::<EqShareDiagnostic>::empty()
    }

    /// A session over the given theories. Its term store holds the integer
    /// sort; its engine has a term store of its own.
    pub fn new(theories: Vec<Box<dyn Theory>>) -> (sess: Self)
        ensures
            sess.fresh(theories, EngineConfig::default_value()),
    {
        let ctx = Context::new();
        let eng = SmtEngine::new(Context::new(), DummySat::default(), theories);
        let sess = Self { ctx, eng, asserted: Vec::new() };
        assert(sess.asserted() =~= Seq::<(TermId, Option<Seq<char>>)>::empty());
        sess
    }

    /// A session over the given theories whose engine has the given
    /// configuration.
    pub fn with_config(theories: Vec<Box<dyn Theory>>, config: EngineConfig) -> (sess: Self)
        ensures
            sess.fresh(theories, config),
    {
        let mut sess = Session::new(theories);
        sess.eng.config = config;
        sess
    }

    /// The term store.
    pub fn ctx(&self) -> (ctx: &Context)
        ensures
            *ctx == self.context(),
    {
        &self.ctx
    }

    /// The term store, to declare sorts and terms.
    pub fn ctx_mut(&mut self) -> (ctx: &mut Context)
        ensures
            *ctx == old(self).context(),
            final(self).context() == *final(ctx),
            final(self).engine() == old(self).engine(),
            final(self).asserted() == old(self).asserted(),
    {
        &mut self.ctx
    }

    /// Declares an uninterpreted sort.
    pub fn declare_uninterpreted_sort(&mut self, name: &str) -> (sid: SortId)
        requires
            old(self).wf(),
            old(self).context().sorts().len() < 0x1_0000_0000,
        ensures
            final(self).wf(),
            final(self).engine() == old(self).engine(),
            final(self).asserted() == old(self).asserted(),
            final(self).context().terms() == old(self).context().terms(),
            sid.0 < final(self).context().sorts().len(),
            final(self).context().sorts()[sid.0 as int] == SortKindView::Uninterpreted(name@),
            old(self).context().sorts().contains(SortKindView::Uninterpreted(name@)) ==> final(self).context().sorts() == old(self).context().sorts(),
            !old(self).context().sorts().contains(SortKindView::Uninterpreted(name@)) ==> final(self).context().sorts() == old(self).context().sorts().push(
                SortKindView::Uninterpreted(name@),
            ) && sid.0 == old(self).context().sorts().len(),
    {
        self.ctx.declare_uninterpreted_sort(name)
    }

    /// Declares a constant.
    pub fn declare_const(&mut self, name: &str, sort: SortId) -> (id: TermId)
        requires
            old(self).wf(),
            old(self).context().terms().len() < 0x1_0000_0000,
        ensures
            final(self).wf(),
            final(self).engine() == old(self).engine(),
            final(self).asserted() == old(self).asserted(),
            final(self).context().sorts() == old(self).context().sorts(),
            final(self).context().terms() == old(self).context().terms().push(
                (TermKindView::Const(name@), sort),
            ),
            id.0 == old(self).context().terms().len(),
    {
        self.ctx.const_term(name, sort)
    }

    /// Applies an uninterpreted function.
    pub fn app_uf(&mut self, name: &str, args: &[TermId], out_sort: SortId) -> (id: TermId)
        requires
            old(self).wf(),
            old(self).context().terms().len() < 0x1_0000_0000,
        ensures
            final(self).wf(),
            final(self).engine() == old(self).engine(),
            final(self).asserted() == old(self).asserted(),
            final(self).context().sorts() == old(self).context().sorts(),
            final(self).context().terms() == old(self).context().terms().push(
                (TermKindView::App { name: name@, args: args@ }, out_sort),
            ),
            id.0 == old(self).context().terms().len(),
    {
        self.ctx.uf_app(name, args, out_sort)
    }

    /// The equality of two terms.
    pub fn eq(&mut self, a: TermId, b: TermId) -> (id: TermId)
        requires
            old(self).wf(),
            old(self).context().terms().len() < 0x1_0000_0000,
        ensures
            final(self).wf(),
            final(self).engine() == old(self).engine(),
            final(self).asserted() == old(self).asserted(),
            final(self).context().sorts() == old(self).context().sorts(),
            final(self).context().terms() == old(self).context().terms().push(
                (TermKindView::Eq(a, b), SortId(0)),
            ),
            id.0 == old(self).context().terms().len(),
    {
        self.ctx.eq(a, b)
    }

    /// The less-or-equal of two terms.
    pub fn le(&mut self, a: TermId, b: TermId) -> (id: TermId)
        requires
            old(self).wf(),
            old(self).context().terms().len() < 0x1_0000_0000,
        ensures
            final(self).wf(),
            final(self).engine() == old(self).engine(),
            final(self).asserted() == old(self).asserted(),
            final(self).context().sorts() == old(self).context().sorts(),
            final(self).context().terms() == old(self).context().terms().push(
                (TermKindView::Le(a, b), SortId(0)),
            ),
            id.0 == old(self).context().terms().len(),
    {
        self.ctx.le(a, b)
    }

    /// The negation of a term.
    pub fn not(&mut self, t: TermId) -> (id: TermId)
        requires
            old(self).wf(),
            old(self).context().terms().len() < 0x1_0000_0000,
        ensures
            final(self).wf(),
            final(self).engine() == old(self).engine(),
            final(self).asserted() == old(self).asserted(),
            final(self).context().sorts() == old(self).context().sorts(),
            final(self).context().terms() == old(self).context().terms().push(
                (TermKindView::Not(t), SortId(0)),
            ),
            id.0 == old(self).context().terms().len(),
    {
        self.ctx.not(t)
    }

    /// Asserts a formula, with a label or without one.
    pub fn assert_term(&mut self, t: TermId, label: Option<&str>)
        ensures
            final(self).context() == old(self).context(),
            final(self).engine() == old(self).engine(),
            final(self).asserted() == old(self).asserted().push(
                (
                    t,
                    match label {
                        Some(s) => Some(s@),
                        None => None,
                    },
                ),
            ),
    {
        let entry = match label {
            Some(s) => Some(Label(s.to_owned())),
            None => None,
        };
        self.asserted.push((t, entry));
        assert(self.asserted() =~= old(self).asserted().push(
            (
                t,
                match label {
                    Some(s) => Some(s@),
                    None => None,
                },
            ),
        ));
    }

    /// Whether the engine of the session is ready for a round.
    pub fn is_ready(&self) -> (b: bool)
        ensures
            b == self.engine().ready(),
    {
        self.eng.is_ready()
    }

    /// Runs one round of the engine.
    pub fn check_sat(&mut self) -> (answer: CheckSat)
        requires
            old(self).engine().ready(),
        ensures
            answer is Unknown,
            final(self).engine().ready(),
            final(self).context() == old(self).context(),
            final(self).asserted() == old(self).asserted(),
            old(self).engine().round_step(final(self).engine()),
    {
        self.eng.check_sat()
    }

    /// Runs one round of the engine if the engine is ready for one, and
    /// leaves the session as it is otherwise.
    pub fn try_check_sat(&mut self) -> (answer: Option<CheckSat>)
        ensures
            answer is Some <==> old(self).engine().ready(),
            answer matches Some(a) ==> a is Unknown && final(self).engine().ready() && old(
                self,
            ).engine().round_step(final(self).engine()),
            answer is None ==> final(self).engine() == old(self).engine(),
            final(self).context() == old(self).context(),
            final(self).asserted() == old(self).asserted(),
    {
        if self.eng.is_ready() {
            Some(self.eng.check_sat())
        } else {
            None
        }
    }

    /// Drains the trace of deliveries.
    pub fn take_eqshare_events(&mut self) -> (events: Vec<EqShareEvent>)
        ensures
            events@ == old(self).engine().eqshare_trace@,
            final(self).engine().eqshare_trace@ == Seq::<EqShareEvent>::empty(),
            final(self).wf() == old(self).wf(),
            final(self).context() == old(self).context(),
            final(self).asserted() == old(self).asserted(),
    {
        self.eng.take_eqshare_events()
    }

    /// Drains the diagnostic records of the engine.
    pub fn take_eqshare_log(&mut self) -> (records: Vec<EqShareDiagnostic>)
        ensures
            records@ == old(self).engine().eqshare_log@,
            final(self).engine().eqshare_log@ == Seq::<EqShareDiagnostic>::empty(),
            final(self).wf() == old(self).wf(),
            final(self).context() == old(self).context(),
            final(self).asserted() == old(self).asserted(),
    {
        self.eng.take_eqshare_log()
    }

    /// Puts a diagnostic record into words, where the engine can.
    pub fn render_diagnostic(&self, record: &EqShareDiagnostic) -> (line: Option<String>)
        ensures
            line is Some <==> self.engine().reasons.wf() && self.engine().can_render(*record),
            line matches Some(text) ==> self.engine().is_rendering(*record, text@),
    {
        self.eng.try_render_diagnostic(record)
    }

    /// The unsatisfiable core. No search is attached to the engine, so it is
    /// always empty.
    pub fn get_unsat_core(&self) -> (core: Vec<Label>)
        ensures
            core@.len() == 0,
    {
        Vec::new()
    }
}

} // verus!
