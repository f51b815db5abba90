//! The shared-term oracle: which terms are referenced by two or more theories.

use crate::atoms::{Atom, AtomTable, TheoryId};
use crate::count::lemma_distinct_numbers;
use crate::tables::{IdMap, IdSet};
use crate::term::TermId;
use crate::theory::Theory;
use vstd::pervasive::VecAdditionalExecFns;
use vstd::prelude::*;

verus! {

/// Report `i` lists the term `t`.
pub open spec fn mentions(reports: Seq<(TheoryId, Seq<TermId>)>, i: int, t: TermId) -> bool {
    0 <= i < reports.len() && reports[i].1.contains(t)
}

/// The term is listed in two reports of different theories.
pub open spec fn shared_in(reports: Seq<(TheoryId, Seq<TermId>)>, t: TermId) -> bool {
    exists|i: int, j: int|
        #![trigger mentions(reports, i, t), mentions(reports, j, t)]
        mentions(reports, i, t) && mentions(reports, j, t) && reports[i].0 != reports[j].0
}

/// The shared terms of a list of reports, each the owner of an atom and the
/// endpoints that the owner exposes for it.
pub open spec fn shared_terms(reports: Seq<(TheoryId, Seq<TermId>)>) -> Set<TermId> {
    Set::new(|t: TermId| shared_in(reports, t))
}

/// A report as a mathematical value.
pub open spec fn report_view(r: (TheoryId, Vec<TermId>)) -> (TheoryId, Seq<TermId>) {
    (r.0, r.1@)
}

/// Reports as mathematical values.
pub open spec fn reports_view(reports: Seq<(TheoryId, Vec<TermId>)>) -> Seq<
    (TheoryId, Seq<TermId>),
> {
    reports.map_values(|r: (TheoryId, Vec<TermId>)| report_view(r))
}

/// Every atom is owned by a registered theory.
pub open spec fn atoms_in_range(atoms: Seq<Atom>, n_theories: int) -> bool {
    forall|i: int| 0 <= i < atoms.len() ==> (#[trigger] atoms[i]).theory.0 < n_theories
}

/// What the theories expose for the atoms: for each atom, in order, its
/// owner and the endpoints that the owner exposes for the term of the atom.
pub open spec fn reports_for(atoms: Seq<Atom>, theories: Seq<Box<dyn Theory>>) -> Seq<
    (TheoryId, Seq<TermId>),
> {
    Seq::new(
        atoms.len(),
        |i: int| (atoms[i].theory, theories[atoms[i].theory.0 as int].endpoints(atoms[i].term)),
    )
}

/// Entry `k` of report `i` is the term `t`, and `o` is the owner of the
/// report.
spec fn listed_at(reports: Seq<(TheoryId, Seq<TermId>)>, i: int, k: int, t: TermId, o: TheoryId) -> bool {
    &&& 0 <= i < reports.len()
    &&& 0 <= k < reports[i].1.len()
    &&& reports[i].1[k] == t
    &&& reports[i].0 == o
}

/// The term is listed under the owner `o` by one of the first `n` reports
/// or among the first `m` entries of report `n`.
spec fn listed_before(
    reports: Seq<(TheoryId, Seq<TermId>)>,
    n: int,
    m: int,
    t: TermId,
    o: TheoryId,
) -> bool {
    exists|i: int, k: int|
        #![trigger listed_at(reports, i, k, t, o)]
        listed_at(reports, i, k, t, o) && (i < n || (i == n && k < m))
}

/// The term is listed before position (`n`, `m`) under an owner other than
/// `first`.
spec fn other_owner(
    reports: Seq<(TheoryId, Seq<TermId>)>,
    n: int,
    m: int,
    t: TermId,
    first: TheoryId,
) -> bool {
    exists|o: TheoryId| o != first && #[trigger] listed_before(reports, n, m, t, o)
}

/// The tally of what was listed before position (`n`, `m`): the terms
/// listed so far, each once and numbered by `index`; for each the owner
/// that listed it first; and whether another owner has listed it since.
spec fn tally_matches(
    index: Map<u32, u32>,
    terms: Seq<u32>,
    first: Seq<usize>,
    several: Seq<bool>,
    reports: Seq<(TheoryId, Seq<TermId>)>,
    n: int,
    m: int,
) -> bool {
    &&& first.len() == terms.len()
    &&& several.len() == terms.len()
    &&& forall|p: int|
        0 <= p < terms.len() ==> index.dom().contains(#[trigger] terms[p]) && index[terms[p]] == p
    &&& forall|id: u32| #[trigger]
        index.dom().contains(id) ==> index[id] < terms.len() && terms[index[id] as int] == id
    &&& forall|p: int|
        0 <= p < terms.len() ==> listed_before(
            reports,
            n,
            m,
            TermId(#[trigger] terms[p]),
            TheoryId(first[p]),
        )
    &&& forall|p: int|
        0 <= p < terms.len() ==> (several[p] <==> other_owner(
            reports,
            n,
            m,
            TermId(#[trigger] terms[p]),
            TheoryId(first[p]),
        ))
    &&& forall|t: u32, o: TheoryId| #[trigger]
        listed_before(reports, n, m, TermId(t), o) ==> index.dom().contains(t)
}

/// What is listed before the next entry is what was listed before this
/// entry, and this entry.
proof fn lemma_listed_step(
    reports: Seq<(TheoryId, Seq<TermId>)>,
    n: int,
    m: int,
    t: TermId,
    o: TheoryId,
)
    requires
        0 <= n < reports.len(),
        0 <= m < reports[n].1.len(),
    ensures
        listed_before(reports, n, m + 1, t, o) <==> listed_before(reports, n, m, t, o) || (t
            == reports[n].1[m] && o == reports[n].0),
{
    if listed_before(reports, n, m + 1, t, o) {
        let (i, k) = choose|i: int, k: int|
            #![trigger listed_at(reports, i, k, t, o)]
            listed_at(reports, i, k, t, o) && (i < n || (i == n && k < m + 1));
        if !(i == n && k == m) {
            assert(listed_at(reports, i, k, t, o) && (i < n || (i == n && k < m)));
        }
    }
    if listed_before(reports, n, m, t, o) {
        let (i, k) = choose|i: int, k: int|
            #![trigger listed_at(reports, i, k, t, o)]
            listed_at(reports, i, k, t, o) && (i < n || (i == n && k < m));
        assert(listed_at(reports, i, k, t, o) && (i < n || (i == n && k < m + 1)));
    }
    if t == reports[n].1[m] && o == reports[n].0 {
        assert(listed_at(reports, n, m, t, o));
    }
}

/// What is listed before the next report is what was listed up to the end
/// of this report.
proof fn lemma_listed_next(reports: Seq<(TheoryId, Seq<TermId>)>, n: int, t: TermId, o: TheoryId)
    requires
        0 <= n < reports.len(),
    ensures
        listed_before(reports, n + 1, 0, t, o) <==> listed_before(
            reports,
            n,
            reports[n].1.len() as int,
            t,
            o,
        ),
{
    let len = reports[n].1.len() as int;
    if listed_before(reports, n + 1, 0, t, o) {
        let (i, k) = choose|i: int, k: int|
            #![trigger listed_at(reports, i, k, t, o)]
            listed_at(reports, i, k, t, o) && (i < n + 1 || (i == n + 1 && k < 0));
        assert(listed_at(reports, i, k, t, o) && (i < n || (i == n && k < len)));
    }
    if listed_before(reports, n, len, t, o) {
        let (i, k) = choose|i: int, k: int|
            #![trigger listed_at(reports, i, k, t, o)]
            listed_at(reports, i, k, t, o) && (i < n || (i == n && k < len));
        assert(listed_at(reports, i, k, t, o) && (i < n + 1 || (i == n + 1 && k < 0)));
    }
}

/// Another owner has listed the term before the next entry if one had
/// before this entry, or if this entry is of the term and of another owner.
proof fn lemma_other_step(
    reports: Seq<(TheoryId, Seq<TermId>)>,
    n: int,
    m: int,
    t: TermId,
    first: TheoryId,
)
    requires
        0 <= n < reports.len(),
        0 <= m < reports[n].1.len(),
    ensures
        other_owner(reports, n, m + 1, t, first) <==> other_owner(reports, n, m, t, first) || (t
            == reports[n].1[m] && reports[n].0 != first),
{
    if other_owner(reports, n, m + 1, t, first) {
        let o = choose|o: TheoryId| o != first && #[trigger] listed_before(reports, n, m + 1, t, o);
        lemma_listed_step(reports, n, m, t, o);
        if listed_before(reports, n, m, t, o) {
            assert(other_owner(reports, n, m, t, first));
        }
    }
    if other_owner(reports, n, m, t, first) {
        let o = choose|o: TheoryId| o != first && #[trigger] listed_before(reports, n, m, t, o);
        lemma_listed_step(reports, n, m, t, o);
        assert(listed_before(reports, n, m + 1, t, o));
    }
    if t == reports[n].1[m] && reports[n].0 != first {
        lemma_listed_step(reports, n, m, t, reports[n].0);
        assert(listed_before(reports, n, m + 1, t, reports[n].0));
    }
}

/// The tally at the end of a report is the tally before the next.
proof fn lemma_tally_next(
    index: Map<u32, u32>,
    terms: Seq<u32>,
    first: Seq<usize>,
    several: Seq<bool>,
    reports: Seq<(TheoryId, Seq<TermId>)>,
    n: int,
)
    requires
        0 <= n < reports.len(),
        tally_matches(index, terms, first, several, reports, n, reports[n].1.len() as int),
    ensures
        tally_matches(index, terms, first, several, reports, n + 1, 0),
{
    let len = reports[n].1.len() as int;
    assert forall|p: int| 0 <= p < terms.len() implies listed_before(
        reports,
        n + 1,
        0,
        TermId(#[trigger] terms[p]),
        TheoryId(first[p]),
    ) by {
        lemma_listed_next(reports, n, TermId(terms[p]), TheoryId(first[p]));
    }
    assert forall|p: int| 0 <= p < terms.len() implies (several[p] <==> other_owner(
        reports,
        n + 1,
        0,
        TermId(#[trigger] terms[p]),
        TheoryId(first[p]),
    )) by {
        let t = TermId(terms[p]);
        let f = TheoryId(first[p]);
        if other_owner(reports, n + 1, 0, t, f) {
            let o = choose|o: TheoryId| o != f && #[trigger] listed_before(reports, n + 1, 0, t, o);
            lemma_listed_next(reports, n, t, o);
            assert(listed_before(reports, n, len, t, o));
        }
        if other_owner(reports, n, len, t, f) {
            let o = choose|o: TheoryId| o != f && #[trigger] listed_before(reports, n, len, t, o);
            lemma_listed_next(reports, n, t, o);
            assert(listed_before(reports, n + 1, 0, t, o));
        }
    }
    assert forall|t: u32, o: TheoryId| #[trigger]
        listed_before(reports, n + 1, 0, TermId(t), o) implies index.dom().contains(t) by {
        lemma_listed_next(reports, n, TermId(t), o);
    }
}

/// The tally after an entry of a term that it holds: the term is marked if
/// the owner of the entry is not the one that listed it first.
proof fn lemma_tally_seen(
    index: Map<u32, u32>,
    terms: Seq<u32>,
    first: Seq<usize>,
    several: Seq<bool>,
    after: Seq<bool>,
    reports: Seq<(TheoryId, Seq<TermId>)>,
    n: int,
    m: int,
)
    requires
        0 <= n < reports.len(),
        0 <= m < reports[n].1.len(),
        tally_matches(index, terms, first, several, reports, n, m),
        index.dom().contains(reports[n].1[m].0),
        after == if TheoryId(first[index[reports[n].1[m].0] as int]) != reports[n].0 {
            several.update(index[reports[n].1[m].0] as int, true)
        } else {
            several
        },
    ensures
        tally_matches(index, terms, first, after, reports, n, m + 1),
{
    let t0 = reports[n].1[m];
    let o0 = reports[n].0;
    let p0 = index[t0.0] as int;
    assert(t0 == TermId(t0.0));
    assert(terms[p0] == t0.0);
    assert forall|p: int| 0 <= p < terms.len() implies listed_before(
        reports,
        n,
        m + 1,
        TermId(#[trigger] terms[p]),
        TheoryId(first[p]),
    ) by {
        lemma_listed_step(reports, n, m, TermId(terms[p]), TheoryId(first[p]));
    }
    assert forall|p: int| 0 <= p < terms.len() implies (after[p] <==> other_owner(
        reports,
        n,
        m + 1,
        TermId(#[trigger] terms[p]),
        TheoryId(first[p]),
    )) by {
        lemma_other_step(reports, n, m, TermId(terms[p]), TheoryId(first[p]));
        if p != p0 {
            assert(terms[p] != t0.0) by {
                if terms[p] == t0.0 {
                    assert(index[terms[p]] == p);
                }
            }
        }
    }
    assert forall|t: u32, o: TheoryId| #[trigger]
        listed_before(reports, n, m + 1, TermId(t), o) implies index.dom().contains(t) by {
        lemma_listed_step(reports, n, m, TermId(t), o);
    }
}

/// The tally after an entry of a term that it does not hold yet: the term
/// is numbered next, under the owner of the entry, and is not marked.
proof fn lemma_tally_new(
    index: Map<u32, u32>,
    terms: Seq<u32>,
    first: Seq<usize>,
    several: Seq<bool>,
    reports: Seq<(TheoryId, Seq<TermId>)>,
    n: int,
    m: int,
)
    requires
        0 <= n < reports.len(),
        0 <= m < reports[n].1.len(),
        tally_matches(index, terms, first, several, reports, n, m),
        !index.dom().contains(reports[n].1[m].0),
        terms.len() < 0x1_0000_0000,
    ensures
        tally_matches(
            index.insert(reports[n].1[m].0, terms.len() as u32),
            terms.push(reports[n].1[m].0),
            first.push(reports[n].0.0),
            several.push(false),
            reports,
            n,
            m + 1,
        ),
{
    let t0 = reports[n].1[m];
    let o0 = reports[n].0;
    let index2 = index.insert(t0.0, terms.len() as u32);
    let terms2 = terms.push(t0.0);
    let first2 = first.push(o0.0);
    let several2 = several.push(false);
    assert(t0 == TermId(t0.0));
    assert(o0 == TheoryId(o0.0));
    assert forall|p: int| 0 <= p < terms2.len() implies index2.dom().contains(#[trigger] terms2[p])
        && index2[terms2[p]] == p by {
        if p < terms.len() {
            assert(terms2[p] == terms[p]);
            assert(index.dom().contains(terms[p]));
        }
    }
    assert forall|id: u32| #[trigger] index2.dom().contains(id) implies index2[id] < terms2.len()
        && terms2[index2[id] as int] == id by {
        if id != t0.0 {
            assert(index.dom().contains(id));
            assert(terms2[index[id] as int] == terms[index[id] as int]);
        }
    }
    assert forall|p: int| 0 <= p < terms2.len() implies listed_before(
        reports,
        n,
        m + 1,
        TermId(#[trigger] terms2[p]),
        TheoryId(first2[p]),
    ) by {
        lemma_listed_step(reports, n, m, TermId(terms2[p]), TheoryId(first2[p]));
        if p < terms.len() {
            assert(terms2[p] == terms[p] && first2[p] == first[p]);
        }
    }
    assert forall|p: int| 0 <= p < terms2.len() implies (several2[p] <==> other_owner(
        reports,
        n,
        m + 1,
        TermId(#[trigger] terms2[p]),
        TheoryId(first2[p]),
    )) by {
        lemma_other_step(reports, n, m, TermId(terms2[p]), TheoryId(first2[p]));
        if p < terms.len() {
            assert(terms2[p] == terms[p] && first2[p] == first[p] && several2[p] == several[p]);
            assert(index.dom().contains(terms[p]));
        } else {
            if other_owner(reports, n, m, t0, o0) {
                let o = choose|o: TheoryId| o != o0 && #[trigger] listed_before(reports, n, m, t0, o);
                assert(index.dom().contains(t0.0));
            }
        }
    }
    assert forall|t: u32, o: TheoryId| #[trigger]
        listed_before(reports, n, m + 1, TermId(t), o) implies index2.dom().contains(t) by {
        lemma_listed_step(reports, n, m, TermId(t), o);
    }
}

/// Once every report is taken in, a term is shared exactly if the tally
/// holds it and has it marked.
proof fn lemma_tally_done(
    index: Map<u32, u32>,
    terms: Seq<u32>,
    first: Seq<usize>,
    several: Seq<bool>,
    reports: Seq<(TheoryId, Seq<TermId>)>,
    t: u32,
)
    requires
        tally_matches(index, terms, first, several, reports, reports.len() as int, 0),
    ensures
        shared_in(reports, TermId(t)) <==> index.dom().contains(t) && several[index[t] as int],
{
    let n = reports.len() as int;
    let term = TermId(t);
    if shared_in(reports, term) {
        let (i, j) = choose|i: int, j: int|
            #![trigger mentions(reports, i, term), mentions(reports, j, term)]
            mentions(reports, i, term) && mentions(reports, j, term) && reports[i].0 != reports[j].0;
        let ki = choose|k: int| 0 <= k < reports[i].1.len() && reports[i].1[k] == term;
        let kj = choose|k: int| 0 <= k < reports[j].1.len() && reports[j].1[k] == term;
        assert(listed_at(reports, i, ki, term, reports[i].0));
        assert(listed_at(reports, j, kj, term, reports[j].0));
        assert(listed_before(reports, n, 0, term, reports[i].0));
        assert(listed_before(reports, n, 0, term, reports[j].0));
        assert(index.dom().contains(t));
        let p = index[t] as int;
        assert(terms[p] == t);
        let f = TheoryId(first[p]);
        if reports[i].0 != f {
            assert(other_owner(reports, n, 0, term, f));
        } else {
            assert(other_owner(reports, n, 0, term, f));
        }
    }
    if index.dom().contains(t) && several[index[t] as int] {
        let p = index[t] as int;
        assert(terms[p] == t);
        let f = TheoryId(first[p]);
        assert(other_owner(reports, n, 0, term, f));
        let o = choose|o: TheoryId| o != f && #[trigger] listed_before(reports, n, 0, term, o);
        assert(listed_before(reports, n, 0, term, f));
        let (i, ki) = choose|i: int, k: int|
            #![trigger listed_at(reports, i, k, term, o)]
            listed_at(reports, i, k, term, o) && (i < n || (i == n && k < 0));
        let (j, kj) = choose|i: int, k: int|
            #![trigger listed_at(reports, i, k, term, f)]
            listed_at(reports, i, k, term, f) && (i < n || (i == n && k < 0));
        assert(reports[i].1[ki] == term);
        assert(reports[j].1[kj] == term);
        assert(mentions(reports, i, term) && mentions(reports, j, term));
    }
}

/// The set of shared terms, with the number of times it was computed.
pub struct SharedTermOracle {
    shared: IdSet,
    epoch: u64,
}

impl Default for SharedTermOracle {
    fn default() -> (oracle: Self)
        ensures
            oracle.numbers() == Set::<u32>::empty(),
            oracle.terms() == Set::<TermId>::empty(),
            oracle.spec_epoch() == 0,
    {
        let oracle = SharedTermOracle { shared: IdSet::new(), epoch: 0 };
        assert(oracle.terms() =~= Set::<TermId>::empty());
        oracle
    }
}

impl SharedTermOracle {
    /// The numbers of the terms that are shared at present.
    pub closed spec fn numbers(&self) -> Set<u32> {
        self.shared@
    }

    /// The terms that are shared at present.
    pub open spec fn terms(&self) -> Set<TermId> {
        Set::new(|t: TermId| self.numbers().contains(t.0))
    }

    /// How often the set has been computed, modulo 2^64.
    pub closed spec fn spec_epoch(&self) -> u64 {
        self.epoch
    }

    #[verifier::when_used_as_spec(spec_epoch)]
    pub fn epoch(&self) -> (e: u64)
        ensures
            e == self.spec_epoch(),
    {
        self.epoch
    }

    /// Whether `t` is shared.
    pub fn is_shared(&self, t: TermId) -> (b: bool)
        ensures
            b == self.terms().contains(t),
    {
        self.shared.contains(t.0)
    }

    /// The number of shared terms.
    pub fn shared_count(&self) -> (n: usize)
        ensures
            n == self.numbers().len(),
    {
        self.shared.len()
    }

    /// The shared terms, each once, in no particular order.
    pub fn shared_set(&self) -> (set: Vec<TermId>)
        ensures
            set@.no_duplicates(),
            forall|t: TermId| #[trigger] set@.contains(t) <==> self.terms().contains(t),
    {
        let numbers = self.shared.items();
        let mut set: Vec<TermId> = Vec::new();
        let mut i: usize = 0;
        while i < numbers.len()
            invariant
                i <= numbers@.len(),
                set@.len() == i,
                forall|k: int| 0 <= k < i ==> (#[trigger] set@[k]) == TermId(numbers@[k]),
            decreases numbers@.len() - i,
        {
            set.push(TermId(numbers[i]));
            i = i + 1;
        }
        proof {
            assert forall|a: int, b: int|
                0 <= a < set@.len() && 0 <= b < set@.len() && a != b implies set@[a] != set@[b] by {
                assert(numbers@[a] != numbers@[b]);
            }
            assert forall|t: TermId| #[trigger] set@.contains(t) <==> self.terms().contains(t) by {
                assert(t == TermId(t.0));
                if set@.contains(t) {
                    let k = choose|k: int| 0 <= k < set@.len() && set@[k] == t;
                    assert(numbers@[k] == t.0);
                    assert(numbers@.contains(t.0));
                }
                if self.terms().contains(t) {
                    assert(numbers@.contains(t.0));
                    let k = choose|k: int| 0 <= k < numbers@.len() && numbers@[k] == t.0;
                    assert(set@[k] == t);
                }
            }
        }
        set
    }

    /// Replaces the shared set by the shared terms of `reports`, whatever it
    /// held before, and counts the computation.
    pub fn rebuild(&mut self, reports: &Vec<(TheoryId, Vec<TermId>)>)
        ensures
            final(self).terms() == shared_terms(reports_view(reports@)),
            final(self).spec_epoch() == if old(self).spec_epoch() == u64::MAX {
                0
            } else {
                old(self).spec_epoch() + 1
            },
    {
        let ghost view = reports_view(reports@);
        let mut index = IdMap::new();
        let mut terms: Vec<u32> = Vec::new();
        let mut first: Vec<usize> = Vec::new();
        let mut several: Vec<bool> = Vec::new();
        let mut i: usize = 0;
        proof {
            assert forall|t: u32, o: TheoryId| #[trigger]
                listed_before(view, 0, 0, TermId(t), o) implies index@.dom().contains(t) by {
                let (a, b) = choose|a: int, b: int|
                    #![trigger listed_at(view, a, b, TermId(t), o)]
                    listed_at(view, a, b, TermId(t), o) && (a < 0 || (a == 0 && b < 0));
            }
        }
        while i < reports.len()
            invariant
                i <= reports.len(),
                view == reports_view(reports@),
                tally_matches(index@, terms@, first@, several@, view, i as int, 0),
            decreases reports.len() - i,
        {
            let owner = reports[i].0.0;
            let listed = &reports[i].1;
            let mut k: usize = 0;
            proof {
                assert(view[i as int] == report_view(reports@[i as int]));
            }
            while k < listed.len()
                invariant
                    i < reports.len(),
                    k <= listed.len(),
                    view == reports_view(reports@),
                    view[i as int].1 == listed@,
                    view[i as int].0 == TheoryId(owner),
                    tally_matches(index@, terms@, first@, several@, view, i as int, k as int),
                decreases listed.len() - k,
            {
                let t = listed[k].0;
                let ghost before = several@;
                match index.get(t) {
                    Some(p) => {
                        if first[p as usize] != owner {
                            several.set(p as usize, true);
                        }
                        proof {
                            assert(TheoryId(first@[p as int]) != TheoryId(owner) <==> first@[p as int]
                                != owner);
                            lemma_tally_seen(
                                index@,
                                terms@,
                                first@,
                                before,
                                several@,
                                view,
                                i as int,
                                k as int,
                            );
                        }
                    },
                    None => {
                        proof {
                            assert forall|a: int, b: int|
                                0 <= a < terms@.len() && 0 <= b < terms@.len() && a != b implies terms@[a]
                                != terms@[b] by {
                                assert(index@[terms@[a]] == a && index@[terms@[b]] == b);
                            }
                            assert forall|a: int| 0 <= a < terms@.len() implies terms@[a] != t by {
                                assert(index@.dom().contains(terms@[a]));
                            }
                            let more = terms@.push(t);
                            assert forall|a: int, b: int|
                                0 <= a < more.len() && 0 <= b < more.len() && a != b implies more[a]
                                != more[b] by {
                                if a < terms@.len() {
                                    assert(more[a] == terms@[a]);
                                }
                                if b < terms@.len() {
                                    assert(more[b] == terms@[b]);
                                }
                            }
                            lemma_distinct_numbers(more);
                            lemma_tally_new(
                                index@,
                                terms@,
                                first@,
                                several@,
                                view,
                                i as int,
                                k as int,
                            );
                        }
                        index.insert(t, terms.len() as u32);
                        terms.push(t);
                        first.push(owner);
                        several.push(false);
                    },
                }
                k = k + 1;
            }
            proof {
                lemma_tally_next(index@, terms@, first@, several@, view, i as int);
            }
            i = i + 1;
        }
        self.shared.clear();
        let mut j: usize = 0;
        while j < terms.len()
            invariant
                j <= terms.len(),
                view.len() == reports.len(),
                tally_matches(index@, terms@, first@, several@, view, view.len() as int, 0),
                forall|t: u32|
                    #[trigger] self.shared@.contains(t) <==> index@.dom().contains(t) && index@[t] < j
                        && several@[index@[t] as int],
                self.epoch == old(self).epoch,
            decreases terms.len() - j,
        {
            let ghost held = self.shared@;
            if several[j] {
                self.shared.insert(terms[j]);
            }
            j = j + 1;
            proof {
                assert(index@.dom().contains(terms@[j - 1]) && index@[terms@[j - 1]] == j - 1);
                assert forall|t: u32|
                    self.shared@.contains(t) <==> index@.dom().contains(t) && index@[t] < j
                        && several@[index@[t] as int] by {
                    assert(held.contains(t) <==> index@.dom().contains(t) && index@[t] < j - 1
                        && several@[index@[t] as int]);
                    if index@.dom().contains(t) {
                        assert(terms@[index@[t] as int] == t);
                    }
                }
            }
        }
        self.epoch = self.epoch.wrapping_add(1);
        proof {
            assert forall|term: TermId| self.terms().contains(term) <==> shared_in(view, term) by {
                assert(term == TermId(term.0));
                lemma_tally_done(index@, terms@, first@, several@, view, term.0);
            }
            assert(self.terms() =~= shared_terms(view));
        }
    }

    /// Computes the shared terms anew: asks the owner of each atom, in the
    /// order of the atoms, for the endpoints it exposes for the atom, and
    /// replaces the set by the shared terms of the answers.
    pub fn recompute(&mut self, atoms: &AtomTable, theories: &[Box<dyn Theory>])
        requires
            atoms_in_range(atoms@, theories@.len() as int),
        ensures
            final(self).terms() == shared_terms(reports_for(atoms@, theories@)),
            final(self).spec_epoch() == if old(self).spec_epoch() == u64::MAX {
                0
            } else {
                old(self).spec_epoch() + 1
            },
    {
        let ghost all = reports_for(atoms@, theories@);
        let mut reports: Vec<(TheoryId, Vec<TermId>)> = Vec::new();
        let mut i: usize = 0;
        while i < atoms.len()
            invariant
                i <= atoms@.len(),
                atoms_in_range(atoms@, theories@.len() as int),
                all == reports_for(atoms@, theories@),
                reports@.len() == i,
                forall|k: int| 0 <= k < i ==> report_view(#[trigger] reports@[k]) == all[k],
            decreases atoms@.len() - i,
        {
            let atom = atoms.get(i);
            let listed = theories[atom.theory.0].atom_endpoints(atom.term);
            proof {
                assert(all[i as int] == (atom.theory, listed@));
            }
            reports.push((atom.theory, listed));
            i = i + 1;
        }
        proof {
            assert(reports_view(reports@) =~= all);
        }
        self.rebuild(&reports);
    }
}

} // verus!
