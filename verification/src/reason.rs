//! The explanation store: an append-only arena of justifications.
//!
//! A justification is either a decision literal or the conjunction of earlier
//! justifications. Handles are issued in creation order and a conjunction may
//! only name handles that were issued before it, so the store is a DAG and any
//! traversal of it terminates.

use crate::sat::Lit;
use vstd::prelude::*;

verus! {

/// Handle of a justification in a [`ReasonArena`].
#[derive(Debug, Clone, Copy, PartialEq, Eq, Hash, Structural)]
pub struct ReasonId(pub u32);

/// A justification as it is stored.
#[derive(Debug, Clone)]
pub enum Reason {
    /// A single decision literal.
    Atom(Lit),
    /// The conjunction of the listed justifications.
    And(Vec<ReasonId>),
}

/// The mathematical content of a [`Reason`].
pub ghost enum ReasonNode {
    Atom(Lit),
    And(Seq<ReasonId>),
}

impl View for Reason {
    type V = ReasonNode;

    open spec fn view(&self) -> ReasonNode {
        match self {
            Reason::Atom(l) => ReasonNode::Atom(*l),
            Reason::And(kids) => ReasonNode::And(kids@),
        }
    }
}

/// Every handle in `ids` is smaller than `limit`.
pub open spec fn all_below(ids: Seq<ReasonId>, limit: int) -> bool {
    forall|k: int| 0 <= k < ids.len() ==> (#[trigger] ids[k]).0 < limit
}

/// The node names only handles smaller than `limit`.
pub open spec fn node_below(n: ReasonNode, limit: int) -> bool {
    match n {
        ReasonNode::Atom(_) => true,
        ReasonNode::And(kids) => all_below(kids, limit),
    }
}

/// Every node names only nodes created before it, and every index fits a
/// handle.
pub open spec fn well_formed(s: Seq<ReasonNode>) -> bool {
    &&& s.len() <= 0x1_0000_0000
    &&& forall|i: int| 0 <= i < s.len() ==> node_below(#[trigger] s[i], i)
}

/// The literals that a traversal yields from a stack of pending handles.
///
/// The top of the stack is its last element and is expanded first; a
/// conjunction is replaced by its children, the last child on top. Handles
/// that are not below `bound` contribute nothing.
pub open spec fn expand_stack(s: Seq<ReasonNode>, stack: Seq<ReasonId>, bound: nat) -> Seq<Lit>
    decreases bound, stack.len(),
{
    if stack.len() == 0 {
        Seq::empty()
    } else {
        let top = stack.last().0 as nat;
        let first = if top < bound && top < s.len() {
            match s[top as int] {
                ReasonNode::Atom(l) => seq![l],
                ReasonNode::And(kids) => expand_stack(s, kids, top),
            }
        } else {
            Seq::empty()
        };
        first + expand_stack(s, stack.drop_last(), bound)
    }
}

/// The leaf literals below `root`, in traversal order, with repetitions.
pub open spec fn expand(s: Seq<ReasonNode>, root: ReasonId) -> Seq<Lit> {
    expand_stack(s, seq![root], (root.0 + 1) as nat)
}

/// The number of nodes that a traversal of `stack` visits.
pub open spec fn visit_count(s: Seq<ReasonNode>, stack: Seq<ReasonId>, bound: nat) -> nat
    decreases bound, stack.len(),
{
    if stack.len() == 0 {
        0
    } else {
        let top = stack.last().0 as nat;
        let below = if top < bound && top < s.len() {
            match s[top as int] {
                ReasonNode::Atom(_) => 0,
                ReasonNode::And(kids) => visit_count(s, kids, top),
            }
        } else {
            0
        };
        1 + below + visit_count(s, stack.drop_last(), bound)
    }
}

/// The bound does not matter as long as every handle of the stack is below it.
pub proof fn lemma_expand_stack_bound(s: Seq<ReasonNode>, stack: Seq<ReasonId>, b1: nat, b2: nat)
    requires
        all_below(stack, b1 as int),
        all_below(stack, b2 as int),
    ensures
        expand_stack(s, stack, b1) == expand_stack(s, stack, b2),
        visit_count(s, stack, b1) == visit_count(s, stack, b2),
    decreases stack.len(),
{
    if stack.len() > 0 {
        let rest = stack.drop_last();
        assert(stack.last() == stack[stack.len() - 1]);
        assert forall|k: int| 0 <= k < rest.len() implies (#[trigger] rest[k]).0 < b1 && rest[k].0
            < b2 by {
            assert(rest[k] == stack[k]);
        }
        lemma_expand_stack_bound(s, rest, b1, b2);
    }
}

/// Traversing `a` with `b` stacked on top yields what `b` yields, then what
/// `a` yields.
pub proof fn lemma_expand_stack_concat(
    s: Seq<ReasonNode>,
    a: Seq<ReasonId>,
    b: Seq<ReasonId>,
    bound: nat,
)
    ensures
        expand_stack(s, a + b, bound) == expand_stack(s, b, bound) + expand_stack(s, a, bound),
        visit_count(s, a + b, bound) == visit_count(s, b, bound) + visit_count(s, a, bound),
    decreases b.len(),
{
    if b.len() == 0 {
        assert(a + b =~= a);
        assert(expand_stack(s, b, bound) + expand_stack(s, a, bound) =~= expand_stack(s, a, bound));
    } else {
        let ab = a + b;
        assert(ab.last() == b.last());
        assert(ab.drop_last() =~= a + b.drop_last());
        lemma_expand_stack_concat(s, a, b.drop_last(), bound);
        let top = b.last().0 as nat;
        let first = if top < bound && top < s.len() {
            match s[top as int] {
                ReasonNode::Atom(l) => seq![l],
                ReasonNode::And(kids) => expand_stack(s, kids, top),
            }
        } else {
            Seq::empty()
        };
        assert(expand_stack(s, ab, bound) == first + expand_stack(s, ab.drop_last(), bound));
        assert(expand_stack(s, b, bound) == first + expand_stack(s, b.drop_last(), bound));
        assert(first + (expand_stack(s, b.drop_last(), bound) + expand_stack(s, a, bound)) =~= (first
            + expand_stack(s, b.drop_last(), bound)) + expand_stack(s, a, bound));
    }
}

/// What a valid handle expands to, by the kind of its node.
pub proof fn lemma_expand_unfold(s: Seq<ReasonNode>, root: ReasonId)
    requires
        root.0 < s.len(),
    ensures
        expand(s, root) == match s[root.0 as int] {
            ReasonNode::Atom(l) => seq![l],
            ReasonNode::And(kids) => expand_stack(s, kids, root.0 as nat),
        },
{
    let stack = seq![root];
    let bound = (root.0 + 1) as nat;
    assert(stack.last() == root);
    assert(stack.drop_last() =~= Seq::<ReasonId>::empty());
    assert(expand_stack(s, stack.drop_last(), bound) =~= Seq::<Lit>::empty());
    let first = match s[root.0 as int] {
        ReasonNode::Atom(l) => seq![l],
        ReasonNode::And(kids) => expand_stack(s, kids, root.0 as nat),
    };
    assert(expand_stack(s, stack, bound) == first + expand_stack(s, stack.drop_last(), bound));
    assert(first + Seq::<Lit>::empty() =~= first);
}

/// Nodes appended to a well-formed store do not change what the handles
/// issued before expand to.
pub proof fn lemma_expand_stack_stable(
    s1: Seq<ReasonNode>,
    s2: Seq<ReasonNode>,
    stack: Seq<ReasonId>,
    bound: nat,
)
    requires
        well_formed(s1),
        s1.is_prefix_of(s2),
        all_below(stack, s1.len() as int),
    ensures
        expand_stack(s2, stack, bound) == expand_stack(s1, stack, bound),
    decreases bound, stack.len(),
{
    if stack.len() > 0 {
        let rest = stack.drop_last();
        assert(stack.last() == stack[stack.len() - 1]);
        assert forall|k: int| 0 <= k < rest.len() implies (#[trigger] rest[k]).0 < s1.len() by {
            assert(rest[k] == stack[k]);
        }
        lemma_expand_stack_stable(s1, s2, rest, bound);
        let top = stack.last().0 as nat;
        assert(s2[top as int] == s1[top as int]);
        if top < bound {
            match s1[top as int] {
                ReasonNode::Atom(_) => {},
                ReasonNode::And(kids) => {
                    assert(node_below(s1[top as int], top as int));
                    lemma_expand_stack_stable(s1, s2, kids, top);
                },
            }
        }
    }
}

/// Nodes appended to a well-formed store do not change what a handle issued
/// before expands to.
pub proof fn lemma_expand_stable(s1: Seq<ReasonNode>, s2: Seq<ReasonNode>, root: ReasonId)
    requires
        well_formed(s1),
        s1.is_prefix_of(s2),
        root.0 < s1.len(),
    ensures
        expand(s2, root) == expand(s1, root),
{
    lemma_expand_stack_stable(s1, s2, seq![root], (root.0 + 1) as nat);
}

/// Expanding the conjunction of two handles yields the literals of both, each
/// as often as its own expansion has it.
pub proof fn lemma_expand_and_pair(s: Seq<ReasonNode>, h1: ReasonId, h2: ReasonId)
    requires
        well_formed(s),
        s.len() < 0x1_0000_0000,
        h1.0 < s.len(),
        h2.0 < s.len(),
    ensures
        ({
            let conj = ReasonId(s.len() as u32);
            let grown = s.push(ReasonNode::And(seq![h1, h2]));
            &&& well_formed(grown)
            &&& expand(grown, conj) == expand(s, h2) + expand(s, h1)
            &&& expand(grown, conj).to_multiset() == expand(s, h1).to_multiset().add(
                expand(s, h2).to_multiset(),
            )
        }),
{
    let conj = ReasonId(s.len() as u32);
    let kids = seq![h1, h2];
    let grown = s.push(ReasonNode::And(kids));
    let n = s.len();
    assert(well_formed(grown)) by {
        assert forall|i: int| 0 <= i < grown.len() implies node_below(#[trigger] grown[i], i) by {
            if i < n {
                assert(grown[i] == s[i]);
            }
        }
    }
    lemma_expand_unfold(grown, conj);
    assert(grown[n as int] == ReasonNode::And(kids));
    assert(expand(grown, conj) == expand_stack(grown, kids, n));
    assert(kids =~= seq![h1] + seq![h2]);
    lemma_expand_stack_concat(grown, seq![h1], seq![h2], n);
    lemma_expand_stack_bound(grown, seq![h1], n, (h1.0 + 1) as nat);
    lemma_expand_stack_bound(grown, seq![h2], n, (h2.0 + 1) as nat);
    assert(s.is_prefix_of(grown));
    lemma_expand_stable(s, grown, h1);
    lemma_expand_stable(s, grown, h2);
    assert(expand(grown, conj) == expand(s, h2) + expand(s, h1));
    vstd::seq_lib::lemma_multiset_commutative(expand(s, h2), expand(s, h1));
    assert(expand(s, h2).to_multiset().add(expand(s, h1).to_multiset()) =~= expand(
        s,
        h1,
    ).to_multiset().add(expand(s, h2).to_multiset()));
}

/// Append-only store of justifications.
#[derive(Debug)]
pub struct ReasonArena {
    reasons: Vec<Reason>,
}

impl Default for ReasonArena {
    fn default() -> (arena: Self)
        ensures
            arena@ == Seq::<ReasonNode>::empty(),
            arena.wf(),
    {
        let arena = ReasonArena { reasons: Vec::new() };
        assert(arena@ =~= Seq::<ReasonNode>::empty());
        arena
    }
}

impl View for ReasonArena {
    type V = Seq<ReasonNode>;

    closed spec fn view(&self) -> Seq<ReasonNode> {
        self.reasons@.map_values(|r: Reason| r@)
    }
}

impl ReasonArena {
    /// The store is a DAG in creation order.
    pub open spec fn wf(&self) -> bool {
        well_formed(self@)
    }

    /// The number of nodes stored.
    pub fn len(&self) -> (n: usize)
        ensures
            n == self@.len(),
    {
        self.reasons.len()
    }

    /// Whether the store is a DAG in creation order.
    pub fn is_well_formed(&self) -> (b: bool)
        ensures
            b == self.wf(),
    {
        let n = self.reasons.len();
        if n as u64 > 0x1_0000_0000 {
            return false;
        }
        let mut i: usize = 0;
        while i < n
            invariant
                i <= n,
                n == self.reasons@.len(),
                n == self@.len(),
                forall|k: int| 0 <= k < i ==> node_below(#[trigger] self@[k], k),
            decreases n - i,
        {
            match &self.reasons[i] {
                Reason::Atom(_) => {},
                Reason::And(kids) => {
                    let mut j: usize = 0;
                    while j < kids.len()
                        invariant
                            j <= kids.len(),
                            i < n,
                            n == self@.len(),
                            self@[i as int] == ReasonNode::And(kids@),
                            forall|k: int| 0 <= k < j ==> (#[trigger] kids@[k]).0 < i,
                        decreases kids.len() - j,
                    {
                        if kids[j].0 as usize >= i {
                            proof {
                                assert(!all_below(kids@, i as int));
                                assert(!node_below(self@[i as int], i as int));
                            }
                            return false;
                        }
                        j = j + 1;
                    }
                },
            }
            i = i + 1;
        }
        true
    }

    /// Appends a node and returns its handle.
    pub fn push(&mut self, r: Reason) -> (id: ReasonId)
        requires
            old(self).wf(),
            old(self)@.len() < 0x1_0000_0000,
            node_below(r@, old(self)@.len() as int),
        ensures
            final(self)@ == old(self)@.push(r@),
            id.0 == old(self)@.len(),
            final(self).wf(),
    {
        let id = ReasonId(self.reasons.len() as u32);
        self.reasons.push(r);
        proof {
            let before = old(self)@;
            assert(self@ =~= before.push(r@));
            assert forall|i: int| 0 <= i < self@.len() implies node_below(#[trigger] self@[i], i) by {
                if i < before.len() {
                    assert(self@[i] == before[i]);
                }
            }
        }
        id
    }

    /// The node behind a handle.
    pub fn get(&self, rid: ReasonId) -> (r: &Reason)
        requires
            rid.0 < self@.len(),
        ensures
            r@ == self@[rid.0 as int],
    {
        &self.reasons[rid.0 as usize]
    }

    /// Flattens the DAG below `root` into its leaf literals, without
    /// recursion. A leaf that is reached along several paths occurs once for
    /// each of them.
    pub fn expand_lits(&self, root: ReasonId) -> (out: Vec<Lit>)
        requires
            self.wf(),
            root.0 < self@.len(),
        ensures
            out@ == expand(self@, root),
    {
        let ghost s = self@;
        let ghost n = s.len();
        let mut out: Vec<Lit> = Vec::new();
        let mut stack: Vec<ReasonId> = Vec::new();
        stack.push(root);
        proof {
            assert(stack@ =~= seq![root]);
            lemma_expand_stack_bound(s, stack@, n, (root.0 + 1) as nat);
            assert(out@ + expand_stack(s, stack@, n) =~= expand(s, root));
        }
        while stack.len() > 0
            invariant
                s == self@,
                n == s.len(),
                well_formed(s),
                all_below(stack@, n as int),
                out@ + expand_stack(s, stack@, n) == expand(s, root),
            decreases visit_count(s, stack@, n),
        {
            let ghost before = stack@;
            let ghost done = out@;
            let r = stack.pop().unwrap();
            let ghost rest = stack@;
            proof {
                assert(rest == before.drop_last());
                assert(r == before.last());
                assert(r == before[before.len() - 1]);
                assert forall|k: int| 0 <= k < rest.len() implies (#[trigger] rest[k]).0 < n by {
                    assert(rest[k] == before[k]);
                }
            }
            match self.get(r) {
                Reason::Atom(l) => {
                    out.push(*l);
                    proof {
                        assert(expand_stack(s, before, n) == seq![*l] + expand_stack(s, rest, n));
                        assert(out@ + expand_stack(s, rest, n) =~= done + (seq![*l] + expand_stack(
                            s,
                            rest,
                            n,
                        )));
                    }
                },
                Reason::And(kids) => {
                    push_all(&mut stack, kids);
                    proof {
                        let top = r.0 as nat;
                        assert(node_below(s[top as int], top as int));
                        assert(all_below(kids@, n as int));
                        lemma_expand_stack_bound(s, kids@, top, n);
                        lemma_expand_stack_concat(s, rest, kids@, n);
                        assert(expand_stack(s, before, n) == expand_stack(s, kids@, top)
                            + expand_stack(s, rest, n));
                        assert(visit_count(s, before, n) == 1 + visit_count(s, kids@, top)
                            + visit_count(s, rest, n));
                    }
                },
            }
        }
        proof {
            assert(expand_stack(s, stack@, n) =~= Seq::<Lit>::empty());
            assert(out@ + Seq::<Lit>::empty() =~= out@);
        }
        out
    }
}

/// Pushes the handles of `kids` onto `stack`, in order.
fn push_all(stack: &mut Vec<ReasonId>, kids: &Vec<ReasonId>)
    ensures
        final(stack)@ == old(stack)@ + kids@,
{
    let mut j: usize = 0;
    while j < kids.len()
        invariant
            j <= kids.len(),
            stack@ == old(stack)@ + kids@.subrange(0, j as int),
        decreases kids.len() - j,
    {
        stack.push(kids[j]);
        j = j + 1;
        proof {
            assert(kids@.subrange(0, j as int) =~= kids@.subrange(0, j - 1).push(kids@[j - 1]));
            assert(stack@ =~= old(stack)@ + kids@.subrange(0, j as int));
        }
    }
    proof {
        assert(kids@.subrange(0, j as int) =~= kids@);
    }
}

} // verus!
