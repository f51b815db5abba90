//! The term substrate: identifiers of terms and sorts, and the term store.

use crate::tables::NameMap;
use vstd::prelude::*;

verus! {

/// Handle of a term in a [`Context`].
#[derive(Debug, Clone, Copy, PartialEq, Eq, Hash, PartialOrd, Ord, Structural)]
pub struct TermId(pub u32);

/// Handle of a sort in a [`Context`].
#[derive(Debug, Clone, Copy, PartialEq, Eq, Hash, PartialOrd, Ord, Structural)]
pub struct SortId(pub u32);

/// The sorts.
#[derive(Debug, Clone, PartialEq, Eq, Hash)]
pub enum SortKind {
    Int,
    Uninterpreted(String),
}

/// The kinds of function symbols.
#[derive(Debug, Clone, PartialEq, Eq, Hash)]
pub enum OpKind {
    /// Uninterpreted function symbol.
    Uf(String),
}

/// A function symbol.
#[derive(Debug, Clone, PartialEq, Eq, Hash)]
pub struct Op {
    pub kind: OpKind,
}

/// The shapes of terms.
#[derive(Debug, Clone, PartialEq, Eq)]
pub enum TermKind {
    /// An n-ary application.
    App { op: Op, args: Vec<TermId> },
    /// Integer constant.
    IntConst(i64),
    /// A named constant or variable.
    Const(String),
    /// Equality of two terms.
    Eq(TermId, TermId),
    /// Integer less-or-equal.
    Le(TermId, TermId),
    /// Negation.
    Not(TermId),
}

/// A term with its sort.
#[derive(Debug, Clone)]
pub struct TermNode {
    pub kind: TermKind,
    pub sort: SortId,
}

/// The mathematical content of a [`SortKind`].
pub ghost enum SortKindView {
    Int,
    Uninterpreted(Seq<char>),
}

impl View for SortKind {
    type V = SortKindView;

    open spec fn view(&self) -> SortKindView {
        match self {
            SortKind::Int => SortKindView::Int,
            SortKind::Uninterpreted(name) => SortKindView::Uninterpreted(name@),
        }
    }
}

/// The mathematical content of a [`TermKind`].
pub ghost enum TermKindView {
    App { name: Seq<char>, args: Seq<TermId> },
    IntConst(i64),
    Const(Seq<char>),
    Eq(TermId, TermId),
    Le(TermId, TermId),
    Not(TermId),
}

impl View for TermKind {
    type V = TermKindView;

    open spec fn view(&self) -> TermKindView {
        match self {
            TermKind::App { op, args } => match op.kind {
                OpKind::Uf(name) => TermKindView::App { name: name@, args: args@ },
            },
            TermKind::IntConst(v) => TermKindView::IntConst(*v),
            TermKind::Const(name) => TermKindView::Const(name@),
            TermKind::Eq(a, b) => TermKindView::Eq(*a, *b),
            TermKind::Le(a, b) => TermKindView::Le(*a, *b),
            TermKind::Not(t) => TermKindView::Not(*t),
        }
    }
}

impl View for TermNode {
    type V = (TermKindView, SortId);

    open spec fn view(&self) -> (TermKindView, SortId) {
        (self.kind@, self.sort)
    }
}

/// The store of sorts and terms. Terms are appended and never changed; a
/// sort is stored once, however often it is declared.
#[derive(Debug)]
pub struct Context {
    sorts: Vec<SortKind>,
    terms: Vec<TermNode>,
    sort_cache: NameMap,
}

impl Context {
    /// The sorts, by handle.
    pub closed spec fn sorts(&self) -> Seq<SortKindView> {
        self.sorts@.map_values(|k: SortKind| k@)
    }

    /// The terms with their sorts, by handle.
    pub closed spec fn terms(&self) -> Seq<(TermKindView, SortId)> {
        self.terms@.map_values(|n: TermNode| n@)
    }

    /// The integer sort comes first, no sort is stored twice, the cache
    /// knows every uninterpreted sort, and every index fits a handle.
    pub closed spec fn wf(&self) -> bool {
        &&& self.sorts().len() >= 1
        &&& self.sorts()[0] == SortKindView::Int
        &&& self.sorts().len() <= 0x1_0000_0000
        &&& self.terms().len() <= 0x1_0000_0000
        &&& forall|name: Seq<char>| #[trigger]
            self.sort_cache@.dom().contains(name) ==> {
                &&& self.sort_cache@[name] < self.sorts().len()
                &&& self.sorts()[self.sort_cache@[name] as int] == SortKindView::Uninterpreted(name)
            }
        &&& forall|i: int|
            0 <= i < self.sorts().len() ==> (#[trigger] self.sorts()[i] matches SortKindView::Uninterpreted(
                name,
            ) ==> self.sort_cache@.dom().contains(name) && self.sort_cache@[name] == i)
    }

    /// The number of sorts.
    pub fn num_sorts(&self) -> (n: usize)
        ensures
            n == self.sorts().len(),
    {
        self.sorts.len()
    }

    /// The number of terms.
    pub fn num_terms(&self) -> (n: usize)
        ensures
            n == self.terms().len(),
    {
        self.terms.len()
    }

    /// A context that holds the integer sort and no term.
    pub fn new() -> (ctx: Self)
        ensures
            ctx.wf(),
            ctx.sorts() == seq![SortKindView::Int],
            ctx.terms() == Seq::<(TermKindView, SortId)>::empty(),
    {
        let mut sorts: Vec<SortKind> = Vec::new();
        sorts.push(SortKind::Int);
        let ctx = Context { sorts, terms: Vec::new(), sort_cache: NameMap::new() };
        proof {
            assert(ctx.sorts() =~= seq![SortKindView::Int]);
            assert(ctx.terms() =~= Seq::<(TermKindView, SortId)>::empty());
        }
        ctx
    }

    /// The built-in integer sort.
    pub fn int_sort(&self) -> (sid: SortId)
        ensures
            sid == SortId(0),
    {
        SortId(0)
    }

    /// The uninterpreted sort of the given name. It is stored at its first
    /// declaration; every later declaration returns the same handle.
    pub fn declare_uninterpreted_sort(&mut self, name: &str) -> (sid: SortId)
        requires
            old(self).wf(),
            old(self).sorts().len() < 0x1_0000_0000,
        ensures
            final(self).wf(),
            final(self).terms() == old(self).terms(),
            sid.0 < final(self).sorts().len(),
            final(self).sorts()[sid.0 as int] == SortKindView::Uninterpreted(name@),
            old(self).sorts().contains(SortKindView::Uninterpreted(name@)) ==> final(self).sorts()
                == old(self).sorts(),
            !old(self).sorts().contains(SortKindView::Uninterpreted(name@)) ==> final(self).sorts()
                == old(self).sorts().push(SortKindView::Uninterpreted(name@)) && sid.0 == old(self).sorts().len(),
    {
        match self.sort_cache.get(name) {
            Some(id) => {
                proof {
                    assert(self.sorts()[id as int] == SortKindView::Uninterpreted(name@));
                }
                SortId(id)
            },
            None => {
                let id = self.sorts.len() as u32;
                let owned = name.to_owned();
                self.sorts.push(SortKind::Uninterpreted(name.to_owned()));
                self.sort_cache.insert(owned, id);
                proof {
                    let before = old(self).sorts();
                    let added = SortKindView::Uninterpreted(name@);
                    assert(self.sorts() =~= before.push(added));
                    assert(self.terms() =~= old(self).terms());
                    if before.contains(added) {
                        let i = choose|i: int| 0 <= i < before.len() && before[i] == added;
                        assert(old(self).sort_cache@.dom().contains(name@));
                    }
                    assert forall|i: int| 0 <= i < self.sorts().len() implies (
                    #[trigger] self.sorts()[i] matches SortKindView::Uninterpreted(other)
                        ==> self.sort_cache@.dom().contains(other) && self.sort_cache@[other] == i) by {
                        if i < before.len() {
                            assert(self.sorts()[i] == before[i]);
                        }
                    }
                    assert forall|other: Seq<char>| #[trigger]
                        self.sort_cache@.dom().contains(other) implies {
                        &&& self.sort_cache@[other] < self.sorts().len()
                        &&& self.sorts()[self.sort_cache@[other] as int]
                            == SortKindView::Uninterpreted(other)
                    } by {
                        if other != name@ {
                            assert(old(self).sort_cache@.dom().contains(other));
                        }
                    }
                }
                SortId(id)
            },
        }
    }

    /// Appends a term and returns its handle.
    pub fn intern(&mut self, kind: TermKind, sort: SortId) -> (id: TermId)
        requires
            old(self).wf(),
            old(self).terms().len() < 0x1_0000_0000,
        ensures
            final(self).wf(),
            final(self).sorts() == old(self).sorts(),
            final(self).terms() == old(self).terms().push((kind@, sort)),
            id.0 == old(self).terms().len(),
    {
        let id = TermId(self.terms.len() as u32);
        self.terms.push(TermNode { kind, sort });
        proof {
            assert(self.terms() =~= old(self).terms().push((kind@, sort)));
            assert(self.sorts() =~= old(self).sorts());
        }
        id
    }

    /// The shape and the sort of a term.
    pub fn term_node(&self, t: TermId) -> (node: (&TermKind, SortId))
        requires
            t.0 < self.terms().len(),
        ensures
            node.0@ == self.terms()[t.0 as int].0,
            node.1 == self.terms()[t.0 as int].1,
    {
        let n = &self.terms[t.0 as usize];
        (&n.kind, n.sort)
    }

    /// A new integer constant.
    pub fn int_const(&mut self, v: i64) -> (id: TermId)
        requires
            old(self).wf(),
            old(self).terms().len() < 0x1_0000_0000,
        ensures
            final(self).wf(),
            final(self).sorts() == old(self).sorts(),
            final(self).terms() == old(self).terms().push((TermKindView::IntConst(v), SortId(0))),
            id.0 == old(self).terms().len(),
    {
        let sort = self.int_sort();
        self.intern(TermKind::IntConst(v), sort)
    }

    /// A new named constant of the given sort.
    pub fn const_term(&mut self, name: &str, sort: SortId) -> (id: TermId)
        requires
            old(self).wf(),
            old(self).terms().len() < 0x1_0000_0000,
        ensures
            final(self).wf(),
            final(self).sorts() == old(self).sorts(),
            final(self).terms() == old(self).terms().push((TermKindView::Const(name@), sort)),
            id.0 == old(self).terms().len(),
    {
        self.intern(TermKind::Const(name.to_owned()), sort)
    }

    /// A new application of the uninterpreted function `name`.
    pub fn uf_app(&mut self, name: &str, args: &[TermId], out_sort: SortId) -> (id: TermId)
        requires
            old(self).wf(),
            old(self).terms().len() < 0x1_0000_0000,
        ensures
            final(self).wf(),
            final(self).sorts() == old(self).sorts(),
            final(self).terms() == old(self).terms().push(
                (TermKindView::App { name: name@, args: args@ }, out_sort),
            ),
            id.0 == old(self).terms().len(),
    {
        self.intern(
            TermKind::App {
                op: Op { kind: OpKind::Uf(name.to_owned()) },
                args: vstd::slice::slice_to_vec(args),
            },
            out_sort,
        )
    }

    /// A new equality between two terms.
    pub fn eq(&mut self, a: TermId, b: TermId) -> (id: TermId)
        requires
            old(self).wf(),
            old(self).terms().len() < 0x1_0000_0000,
        ensures
            final(self).wf(),
            final(self).sorts() == old(self).sorts(),
            final(self).terms() == old(self).terms().push((TermKindView::Eq(a, b), SortId(0))),
            id.0 == old(self).terms().len(),
    {
        let sort = self.int_sort();
        self.intern(TermKind::Eq(a, b), sort)
    }

    /// A new less-or-equal between two terms.
    pub fn le(&mut self, a: TermId, b: TermId) -> (id: TermId)
        requires
            old(self).wf(),
            old(self).terms().len() < 0x1_0000_0000,
        ensures
            final(self).wf(),
            final(self).sorts() == old(self).sorts(),
            final(self).terms() == old(self).terms().push((TermKindView::Le(a, b), SortId(0))),
            id.0 == old(self).terms().len(),
    {
        let sort = self.int_sort();
        self.intern(TermKind::Le(a, b), sort)
    }

    /// A new negation of a term.
    pub fn not(&mut self, t: TermId) -> (id: TermId)
        requires
            old(self).wf(),
            old(self).terms().len() < 0x1_0000_0000,
        ensures
            final(self).wf(),
            final(self).sorts() == old(self).sorts(),
            final(self).terms() == old(self).terms().push((TermKindView::Not(t), SortId(0))),
            id.0 == old(self).terms().len(),
    {
        let sort = self.int_sort();
        self.intern(TermKind::Not(t), sort)
    }
}

} // verus!
