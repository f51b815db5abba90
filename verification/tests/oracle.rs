use smt_combine::atoms::{Atom, AtomTable, TheoryId};
use smt_combine::shared_terms::SharedTermOracle;
use smt_combine::term::TermId;
use smt_combine::theory::Theory;

struct Fixed {
    name: &'static str,
    listed: Vec<u32>,
}

impl Theory for Fixed {
    fn name(&self) -> &'static str {
        self.name
    }

    fn atom_endpoints(&self, atom_term: TermId) -> Vec<TermId> {
        if atom_term == TermId(0) {
            Vec::new()
        } else {
            self.listed.iter().map(|t| TermId(*t)).collect()
        }
    }

    fn shares(&self) -> bool {
        false
    }

    fn equality_sharing_mut(&mut self) -> Option<&mut dyn smt_combine::theory::EqualitySharing> {
        None
    }
}

fn terms(ts: &[u32]) -> Vec<TermId> {
    ts.iter().map(|t| TermId(*t)).collect()
}

fn shared_among(oracle: &SharedTermOracle, candidates: std::ops::Range<u32>) -> Vec<u32> {
    candidates.filter(|t| oracle.is_shared(TermId(*t))).collect()
}

#[test]
fn term_listed_by_two_theories_is_shared() {
    let mut oracle = SharedTermOracle::default();
    assert_eq!(oracle.epoch(), 0);
    oracle.rebuild(&vec![(TheoryId(0), terms(&[10, 11])), (TheoryId(1), terms(&[11, 12]))]);
    assert_eq!(shared_among(&oracle, 0..20), vec![11]);
    assert_eq!(oracle.shared_count(), 1);
    assert_eq!(oracle.shared_set(), vec![TermId(11)]);
    assert_eq!(oracle.epoch(), 1);
}

#[test]
fn term_listed_twice_by_one_theory_is_not_shared() {
    let mut oracle = SharedTermOracle::default();
    oracle.rebuild(&vec![
        (TheoryId(2), terms(&[4, 4, 5])),
        (TheoryId(2), terms(&[4])),
        (TheoryId(3), terms(&[6])),
    ]);
    assert_eq!(shared_among(&oracle, 0..10), Vec::<u32>::new());
    assert_eq!(oracle.shared_count(), 0);
}

#[test]
fn rebuild_discards_the_set_held_before() {
    let mut oracle = SharedTermOracle::default();
    oracle.rebuild(&vec![(TheoryId(0), terms(&[1, 2])), (TheoryId(1), terms(&[1, 2]))]);
    assert_eq!(shared_among(&oracle, 0..5), vec![1, 2]);
    oracle.rebuild(&vec![(TheoryId(0), terms(&[3])), (TheoryId(1), terms(&[3]))]);
    assert_eq!(shared_among(&oracle, 0..5), vec![3]);
    oracle.rebuild(&Vec::new());
    assert_eq!(shared_among(&oracle, 0..5), Vec::<u32>::new());
    assert_eq!(oracle.epoch(), 3);
}

#[test]
fn theories_beyond_the_first_thirty_two_count_each_for_itself() {
    let mut oracle = SharedTermOracle::default();
    oracle.rebuild(&vec![
        (TheoryId(31), terms(&[1, 2])),
        (TheoryId(40), terms(&[1, 3])),
        (TheoryId(30), terms(&[2, 9])),
        (TheoryId(usize::MAX), terms(&[3, 9])),
    ]);
    assert_eq!(shared_among(&oracle, 0..10), vec![1, 2, 3, 9]);
    oracle.rebuild(&vec![(TheoryId(31), terms(&[5])), (TheoryId(32), terms(&[5, 6])), (TheoryId(32), terms(&[6]))]);
    assert_eq!(shared_among(&oracle, 0..10), vec![5]);
}

#[test]
fn term_shared_by_three_theories_is_in_the_set_once() {
    let mut oracle = SharedTermOracle::default();
    oracle.rebuild(&vec![
        (TheoryId(0), terms(&[7])),
        (TheoryId(1), terms(&[7])),
        (TheoryId(2), terms(&[7, u32::MAX])),
        (TheoryId(0), terms(&[u32::MAX])),
    ]);
    assert!(oracle.is_shared(TermId(7)));
    assert!(oracle.is_shared(TermId(u32::MAX)));
    assert_eq!(oracle.shared_count(), 2);
    let mut listed = oracle.shared_set();
    listed.sort();
    assert_eq!(listed, vec![TermId(7), TermId(u32::MAX)]);
}

#[test]
fn recompute_asks_the_owner_of_each_atom() {
    let theories: Vec<Box<dyn Theory>> = vec![
        Box::new(Fixed { name: "A", listed: vec![1, 2] }),
        Box::new(Fixed { name: "B", listed: vec![2, 3] }),
        Box::new(Fixed { name: "C", listed: vec![1, 2, 3] }),
    ];
    assert_eq!(theories[2].name(), "C");
    let mut atoms = AtomTable::default();
    atoms.push(Atom { term: TermId(100), theory: TheoryId(0) });
    atoms.push(Atom { term: TermId(101), theory: TheoryId(1) });
    atoms.push(Atom { term: TermId(0), theory: TheoryId(2) });
    let mut oracle = SharedTermOracle::default();
    oracle.recompute(&atoms, &theories);
    assert_eq!(shared_among(&oracle, 0..5), vec![2]);
    atoms.push(Atom { term: TermId(102), theory: TheoryId(2) });
    oracle.recompute(&atoms, &theories);
    assert_eq!(shared_among(&oracle, 0..5), vec![1, 2, 3]);
    assert_eq!(oracle.epoch(), 2);
}

#[test]
fn recompute_without_atoms_shares_nothing() {
    let theories: Vec<Box<dyn Theory>> = Vec::new();
    let mut oracle = SharedTermOracle::default();
    oracle.recompute(&AtomTable::default(), &theories);
    assert_eq!(oracle.shared_count(), 0);
    assert_eq!(oracle.epoch(), 1);
}
