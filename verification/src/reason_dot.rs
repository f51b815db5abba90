//! Rendering of a bounded part of the explanation DAG in the DOT language.

use crate::count::lemma_distinct_numbers;
use crate::reason::{all_below, node_below, well_formed, Reason, ReasonArena, ReasonId, ReasonNode};
use crate::sat::Lit;
use crate::tables::{IdMap, IdSet};
use crate::text::{append_decimal, decimal, fmt_lit, lit_text};
use vstd::prelude::*;
use vstd::string::{StrSliceExecFns, StringExecFns};

verus! {

/// Bounds of a rendering of the explanation DAG.
#[derive(Debug, Clone, Copy)]
pub struct DotLimits {
    /// Nodes beyond this number are left out; the root is always shown.
    pub max_reason_nodes: usize,
    /// Labels of literals are cut to this number of bytes.
    pub max_lit_label_len: usize,
}

impl Default for DotLimits {
    fn default() -> (limits: Self)
        ensures
            limits.max_reason_nodes == 300,
            limits.max_lit_label_len == 64,
    {
        Self { max_reason_nodes: 300, max_lit_label_len: 64 }
    }
}

/// The children of a node; a leaf has none.
pub open spec fn children(s: Seq<ReasonNode>, r: ReasonId) -> Seq<ReasonId> {
    if r.0 < s.len() {
        match s[r.0 as int] {
            ReasonNode::Atom(_) => Seq::empty(),
            ReasonNode::And(kids) => kids,
        }
    } else {
        Seq::empty()
    }
}

/// `found`, followed by those of `kids` that it does not hold, each once and
/// in the order of `kids`.
pub open spec fn discover(found: Seq<ReasonId>, kids: Seq<ReasonId>) -> Seq<ReasonId>
    decreases kids.len(),
{
    if kids.len() == 0 {
        found
    } else {
        let before = discover(found, kids.drop_last());
        if before.contains(kids.last()) {
            before
        } else {
            before.push(kids.last())
        }
    }
}

/// The nodes in the order of a breadth-first walk that has found `found`
/// and has visited the first `head` of them. The walk ends when nothing is
/// left to visit or when `max` nodes are visited; the first node is visited
/// in any case.
pub open spec fn breadth_first(s: Seq<ReasonNode>, found: Seq<ReasonId>, head: nat, max: nat) -> Seq<
    ReasonId,
>
    decreases max - head,
{
    if head >= found.len() {
        found
    } else if head + 1 >= max {
        found.take(head + 1 as int)
    } else {
        breadth_first(s, discover(found, children(s, found[head as int])), head + 1, max)
    }
}

/// The nodes that a rendering from `root` shows, in the order in which it
/// numbers them.
pub open spec fn dot_order(s: Seq<ReasonNode>, root: ReasonId, max: nat) -> Seq<ReasonId> {
    breadth_first(s, seq![root], 0, max)
}

/// The name of the node that is shown at position `i`.
pub open spec fn node_name(i: nat) -> Seq<char> {
    "r"@ + decimal(i)
}

/// The label of a literal: the longest beginning of its text that fits
/// into `max_len` bytes. The negation sign takes two bytes, every other
/// character one.
pub open spec fn label_text(l: Lit, max_len: nat) -> Seq<char> {
    let text = lit_text(l);
    if l.is_pos() {
        if text.len() > max_len {
            text.take(max_len as int)
        } else {
            text
        }
    } else {
        if text.len() + 1 > max_len {
            if max_len <= 1 {
                Seq::empty()
            } else {
                text.take(max_len - 1 as int)
            }
        } else {
            text
        }
    }
}

/// The line that declares the node at position `i`.
pub open spec fn node_line(n: ReasonNode, i: nat, max_len: nat) -> Seq<char> {
    match n {
        ReasonNode::Atom(l) => "  "@ + node_name(i) + " [shape=ellipse,label=\""@ + label_text(
            l,
            max_len,
        ) + "\"];\n"@,
        ReasonNode::And(kids) => "  "@ + node_name(i) + " [shape=box,label=\"AND ("@ + decimal(
            kids.len(),
        ) + ")\"];\n"@,
    }
}

/// The lines that declare the first `n` nodes.
pub open spec fn node_lines(s: Seq<ReasonNode>, order: Seq<ReasonId>, n: nat, max_len: nat) -> Seq<
    char,
>
    decreases n,
{
    if n == 0 {
        Seq::empty()
    } else {
        node_lines(s, order, (n - 1) as nat, max_len) + node_line(
            s[order[n - 1].0 as int],
            (n - 1) as nat,
            max_len,
        )
    }
}

/// The line of the edge from the node at position `i` to the one at `j`.
pub open spec fn edge_line(i: nat, j: nat) -> Seq<char> {
    "  "@ + node_name(i) + " -> "@ + node_name(j) + ";\n"@
}

/// The edges from the node at position `i` to those of `kids` that are
/// shown.
pub open spec fn edges_to(order: Seq<ReasonId>, i: nat, kids: Seq<ReasonId>) -> Seq<char>
    decreases kids.len(),
{
    if kids.len() == 0 {
        Seq::empty()
    } else {
        let before = edges_to(order, i, kids.drop_last());
        if order.contains(kids.last()) {
            before + edge_line(i, order.index_of(kids.last()) as nat)
        } else {
            before
        }
    }
}

/// The edges that leave the first `n` nodes.
pub open spec fn edge_lines(s: Seq<ReasonNode>, order: Seq<ReasonId>, n: nat) -> Seq<char>
    decreases n,
{
    if n == 0 {
        Seq::empty()
    } else {
        edge_lines(s, order, (n - 1) as nat) + edges_to(
            order,
            (n - 1) as nat,
            children(s, order[n - 1]),
        )
    }
}

/// The rendering of the nodes `order`.
pub open spec fn dot_of_order(s: Seq<ReasonNode>, order: Seq<ReasonId>, max_len: nat) -> Seq<char> {
    "digraph Reason {\n"@ + "  rankdir=LR;\n"@ + "  node [fontname=\"Helvetica\"];\n"@ + node_lines(
        s,
        order,
        order.len(),
        max_len,
    ) + edge_lines(s, order, order.len()) + "}\n"@
}

/// The rendering of the DAG below `root`.
pub open spec fn reason_dot_text(s: Seq<ReasonNode>, root: ReasonId, limits: DotLimits) -> Seq<char> {
    dot_of_order(
        s,
        dot_order(s, root, limits.max_reason_nodes as nat),
        limits.max_lit_label_len as nat,
    )
}

/// The handles that the set holds are those of `found`.
spec fn seen_matches(seen: Set<u32>, found: Seq<ReasonId>) -> bool {
    forall|id: u32| seen.contains(id) <==> found.contains(ReasonId(id))
}

/// The map knows the position of each of the first `n` nodes, and nothing
/// else.
spec fn names_match(names: Map<u32, u32>, order: Seq<ReasonId>, n: int) -> bool {
    &&& forall|p: int|
        0 <= p < n ==> names.dom().contains((#[trigger] order[p]).0) && names[order[p].0] == p
    &&& forall|id: u32| #[trigger]
        names.dom().contains(id) ==> names[id] < n && order[names[id] as int] == ReasonId(id)
}

/// Different handles are at most as many as there are numbers.
proof fn lemma_distinct_handles(ids: Seq<ReasonId>)
    requires
        ids.no_duplicates(),
    ensures
        ids.len() <= 0x1_0000_0000,
{
    let nums = ids.map_values(|r: ReasonId| r.0);
    assert forall|i: int, j: int| 0 <= i < nums.len() && 0 <= j < nums.len() && i != j implies nums[i]
        != nums[j] by {
        assert(ids[i] != ids[j]);
        assert(ids[i] == ReasonId(ids[i].0));
        assert(ids[j] == ReasonId(ids[j].0));
    }
    lemma_distinct_numbers(nums);
}

/// What `discover` keeps: no handle twice, and every handle valid.
proof fn lemma_discover_keeps(found: Seq<ReasonId>, kids: Seq<ReasonId>, limit: int)
    requires
        found.no_duplicates(),
        all_below(found, limit),
        all_below(kids, limit),
    ensures
        discover(found, kids).no_duplicates(),
        all_below(discover(found, kids), limit),
        found.is_prefix_of(discover(found, kids)),
    decreases kids.len(),
{
    if kids.len() > 0 {
        let rest = kids.drop_last();
        assert forall|k: int| 0 <= k < rest.len() implies (#[trigger] rest[k]).0 < limit by {
            assert(rest[k] == kids[k]);
        }
        lemma_discover_keeps(found, rest, limit);
        assert(kids.last() == kids[kids.len() - 1]);
    }
}

/// Appends to `found` the handles of `kids` that were not seen before.
fn discover_kids(found: &mut Vec<ReasonId>, seen: &mut IdSet, kids: &Vec<ReasonId>)
    requires
        seen_matches(old(seen)@, old(found)@),
    ensures
        final(found)@ == discover(old(found)@, kids@),
        seen_matches(final(seen)@, final(found)@),
{
    let mut j: usize = 0;
    proof {
        assert(kids@.take(0) =~= Seq::<ReasonId>::empty());
    }
    while j < kids.len()
        invariant
            j <= kids.len(),
            found@ == discover(old(found)@, kids@.take(j as int)),
            seen_matches(seen@, found@),
        decreases kids.len() - j,
    {
        let k = kids[j];
        let ghost before = found@;
        let ghost held = seen@;
        let fresh = seen.insert(k.0);
        if fresh {
            found.push(k);
        }
        j = j + 1;
        proof {
            let upto = kids@.take(j as int);
            assert(upto.drop_last() =~= kids@.take(j - 1));
            assert(upto.last() == k);
            assert(k == ReasonId(k.0));
            assert(fresh <==> !before.contains(k));
            assert forall|id: u32| seen@.contains(id) <==> found@.contains(ReasonId(id)) by {
                if fresh {
                    assert(found@ == before.push(k));
                    if held.contains(id) {
                        let p = choose|p: int| 0 <= p < before.len() && before[p] == ReasonId(id);
                        assert(found@[p] == ReasonId(id));
                    }
                    if id == k.0 {
                        assert(found@[before.len() as int] == k);
                    }
                    if found@.contains(ReasonId(id)) {
                        let p = choose|p: int| 0 <= p < found@.len() && found@[p] == ReasonId(id);
                        if p < before.len() {
                            assert(before[p] == ReasonId(id));
                        }
                    }
                }
            }
        }
    }
    proof {
        assert(kids@.take(j as int) =~= kids@);
    }
}

/// The nodes below `root` in breadth-first order, at most `max_nodes` of
/// them and at least the root.
pub fn reason_order(arena: &ReasonArena, root: ReasonId, max_nodes: usize) -> (order: Vec<ReasonId>)
    requires
        arena.wf(),
        root.0 < arena@.len(),
    ensures
        order@ == dot_order(arena@, root, max_nodes as nat),
        order@.no_duplicates(),
        all_below(order@, arena@.len() as int),
        order@.len() <= 0x1_0000_0000,
{
    let ghost s = arena@;
    let ghost max = max_nodes as nat;
    let mut found: Vec<ReasonId> = Vec::new();
    let mut seen = IdSet::new();
    found.push(root);
    seen.insert(root.0);
    let mut order: Vec<ReasonId> = Vec::new();
    let mut head: usize = 0;
    let mut full = false;
    proof {
        assert(found@ =~= seq![root]);
        assert forall|id: u32| seen@.contains(id) <==> found@.contains(ReasonId(id)) by {
            if id == root.0 {
                assert(found@[0] == ReasonId(id));
            }
        }
    }
    while head < found.len() && !full
        invariant
            s == arena@,
            max == max_nodes as nat,
            well_formed(s),
            head <= found@.len(),
            order@.len() <= found@.len(),
            order@ == found@.take(order@.len() as int),
            !full ==> order@.len() == head,
            found@.no_duplicates(),
            all_below(found@, s.len() as int),
            seen_matches(seen@, found@),
            !full ==> breadth_first(s, found@, head as nat, max) == dot_order(s, root, max),
            full ==> order@ == dot_order(s, root, max),
            !full && head > 0 ==> head < max,
        decreases (if full { 0int } else { 1int }), max_nodes - head,
    {
        let r = found[head];
        order.push(r);
        proof {
            assert(order@ =~= found@.take(head + 1));
            lemma_distinct_handles(found@);
        }
        if head + 1 >= max_nodes {
            full = true;
        } else {
            let ghost before = found@;
            match arena.get(r) {
                Reason::Atom(_) => {
                    proof {
                        assert(children(s, r) =~= Seq::<ReasonId>::empty());
                    }
                },
                Reason::And(kids) => {
                    proof {
                        assert(node_below(s[r.0 as int], r.0 as int));
                        assert(all_below(kids@, s.len() as int));
                        lemma_discover_keeps(before, kids@, s.len() as int);
                    }
                    discover_kids(&mut found, &mut seen, kids);
                },
            }
            proof {
                assert(found@ == discover(before, children(s, r)));
                assert(before.is_prefix_of(found@));
                assert(order@ =~= found@.take(head + 1));
            }
            head = head + 1;
        }
    }
    proof {
        if !full {
            assert(found@.take(head as int) =~= found@);
        }
        assert forall|i: int, j: int|
            0 <= i < order@.len() && 0 <= j < order@.len() && i != j implies order@[i] != order@[j] by {
            assert(order@[i] == found@[i] && order@[j] == found@[j]);
        }
        assert forall|k: int| 0 <= k < order@.len() implies (#[trigger] order@[k]).0 < s.len() by {
            assert(order@[k] == found@[k]);
        }
        lemma_distinct_handles(order@);
    }
    order
}

/// Appends the name of the node at position `i`.
fn append_node_name(out: &mut String, i: usize)
    ensures
        final(out)@ == old(out)@ + node_name(i as nat),
{
    out.append("r");
    append_decimal(out, i as u64);
    assert(out@ =~= old(out)@ + node_name(i as nat));
}

/// The label of a literal: the longest beginning of its text that fits
/// into `max_len` bytes.
fn cut_label(l: Lit, max_len: usize) -> (label: String)
    ensures
        label@ == label_text(l, max_len as nat),
{
    let text = fmt_lit(l);
    let chars = text.as_str().unicode_len();
    let keep = if l.is_pos() {
        if chars > max_len {
            max_len
        } else {
            chars
        }
    } else {
        if chars >= max_len {
            if max_len <= 1 {
                0
            } else {
                max_len - 1
            }
        } else {
            chars
        }
    };
    let mut label = String::new();
    label.append(text.as_str().substring_char(0, keep));
    proof {
        assert(text@.subrange(0, keep as int) =~= text@.take(keep as int));
        if keep == chars {
            assert(text@.take(keep as int) =~= text@);
        }
        assert(label@ =~= text@.take(keep as int));
    }
    label
}

/// Appends the line that declares the node at position `i`.
fn append_node_line(out: &mut String, node: &Reason, i: usize, max_len: usize)
    ensures
        final(out)@ == old(out)@ + node_line(node@, i as nat, max_len as nat),
{
    out.append("  ");
    append_node_name(out, i);
    match node {
        Reason::Atom(l) => {
            out.append(" [shape=ellipse,label=\"");
            let label = cut_label(*l, max_len);
            out.append(label.as_str());
            out.append("\"];\n");
        },
        Reason::And(kids) => {
            out.append(" [shape=box,label=\"AND (");
            append_decimal(out, kids.len() as u64);
            out.append(")\"];\n");
        },
    }
    assert(out@ =~= old(out)@ + node_line(node@, i as nat, max_len as nat));
}

/// Appends the edges from the node at position `i` to those of `kids` that
/// are shown.
fn append_edges(out: &mut String, names: &IdMap, kids: &Vec<ReasonId>, i: usize, Ghost(order): Ghost<
    Seq<ReasonId>,
>)
    requires
        order.no_duplicates(),
        names_match(names@, order, order.len() as int),
    ensures
        final(out)@ == old(out)@ + edges_to(order, i as nat, kids@),
{
    let mut j: usize = 0;
    proof {
        assert(kids@.take(0) =~= Seq::<ReasonId>::empty());
        assert(out@ =~= old(out)@ + edges_to(order, i as nat, kids@.take(0)));
    }
    while j < kids.len()
        invariant
            j <= kids.len(),
            order.no_duplicates(),
            names_match(names@, order, order.len() as int),
            out@ == old(out)@ + edges_to(order, i as nat, kids@.take(j as int)),
        decreases kids.len() - j,
    {
        let k = kids[j];
        let ghost before = out@;
        let ghost done = edges_to(order, i as nat, kids@.take(j as int));
        let hit = names.get(k.0);
        proof {
            assert(k == ReasonId(k.0));
            if names@.dom().contains(k.0) {
                let p = names@[k.0] as int;
                assert(order[p] == k);
                assert(order.contains(k));
                let q = order.index_of(k);
                assert(order[q] == k);
                assert(q == p);
            }
            if order.contains(k) {
                let p = choose|p: int| 0 <= p < order.len() && order[p] == k;
                assert(names@.dom().contains(order[p].0));
            }
        }
        match hit {
            Some(dst) => {
                out.append("  ");
                append_node_name(out, i);
                out.append(" -> ");
                append_node_name(out, dst as usize);
                out.append(";\n");
                proof {
                    assert(out@ =~= before + edge_line(i as nat, dst as nat));
                }
            },
            None => {},
        }
        j = j + 1;
        proof {
            let upto = kids@.take(j as int);
            assert(upto.drop_last() =~= kids@.take(j - 1));
            assert(upto.last() == k);
            if order.contains(k) {
                assert(out@ =~= old(out)@ + (done + edge_line(i as nat, order.index_of(k) as nat)));
            }
        }
    }
    proof {
        assert(kids@.take(j as int) =~= kids@);
    }
}

/// Renders the nodes `order` of the store: a line for each node, then a
/// line for each edge between two of them.
pub fn render_reason_dot(arena: &ReasonArena, order: &Vec<ReasonId>, max_lit_label_len: usize) -> (out:
    String)
    requires
        order@.no_duplicates(),
        all_below(order@, arena@.len() as int),
        order@.len() <= 0x1_0000_0000,
    ensures
        out@ == dot_of_order(arena@, order@, max_lit_label_len as nat),
{
    let ghost s = arena@;
    let ghost max_len = max_lit_label_len as nat;
    let mut names = IdMap::new();
    let mut i: usize = 0;
    while i < order.len()
        invariant
            i <= order.len(),
            order@.no_duplicates(),
            order@.len() <= 0x1_0000_0000,
            names_match(names@, order@, i as int),
        decreases order.len() - i,
    {
        let ghost held = names@;
        names.insert(order[i].0, i as u32);
        proof {
            let id0 = order@[i as int].0;
            assert(order@[i as int] == ReasonId(id0));
            assert forall|p: int| 0 <= p < i + 1 implies names@.dom().contains(
                (#[trigger] order@[p]).0,
            ) && names@[order@[p].0] == p by {
                if p < i {
                    assert(order@[p] != order@[i as int]);
                    assert(held.dom().contains(order@[p].0));
                }
            }
            assert forall|id: u32| #[trigger] names@.dom().contains(id) implies names@[id] < i + 1
                && order@[names@[id] as int] == ReasonId(id) by {
                if id != id0 {
                    assert(held.dom().contains(id));
                }
            }
        }
        i = i + 1;
    }
    let mut out = String::new();
    out.append("digraph Reason {\n");
    out.append("  rankdir=LR;\n");
    out.append("  node [fontname=\"Helvetica\"];\n");
    let ghost head = out@;
    let mut i: usize = 0;
    proof {
        assert(out@ =~= head + node_lines(s, order@, 0, max_len));
    }
    while i < order.len()
        invariant
            i <= order.len(),
            s == arena@,
            max_len == max_lit_label_len as nat,
            all_below(order@, s.len() as int),
            out@ == head + node_lines(s, order@, i as nat, max_len),
        decreases order.len() - i,
    {
        let node = arena.get(order[i]);
        append_node_line(&mut out, node, i, max_lit_label_len);
        i = i + 1;
        proof {
            assert(out@ =~= head + (node_lines(s, order@, (i - 1) as nat, max_len) + node_line(
                s[order@[i - 1].0 as int],
                (i - 1) as nat,
                max_len,
            )));
        }
    }
    let ghost nodes = out@;
    let mut i: usize = 0;
    proof {
        assert(out@ =~= nodes + edge_lines(s, order@, 0));
    }
    while i < order.len()
        invariant
            i <= order.len(),
            s == arena@,
            order@.no_duplicates(),
            all_below(order@, s.len() as int),
            names_match(names@, order@, order@.len() as int),
            out@ == nodes + edge_lines(s, order@, i as nat),
        decreases order.len() - i,
    {
        let ghost before = out@;
        match arena.get(order[i]) {
            Reason::Atom(_) => {
                proof {
                    assert(children(s, order@[i as int]) =~= Seq::<ReasonId>::empty());
                    assert(out@ =~= before + edges_to(order@, i as nat, children(s, order@[i as int])));
                }
            },
            Reason::And(kids) => {
                append_edges(&mut out, &names, kids, i, Ghost(order@));
            },
        }
        i = i + 1;
        proof {
            assert(out@ =~= nodes + (edge_lines(s, order@, (i - 1) as nat) + edges_to(
                order@,
                (i - 1) as nat,
                children(s, order@[i - 1]),
            )));
        }
    }
    out.append("}\n");
    proof {
        assert(out@ =~= dot_of_order(s, order@, max_len));
    }
    out
}

/// Renders the DAG below `root`, breadth first, within the given bounds.
pub fn reason_to_dot(arena: &ReasonArena, root: ReasonId, limits: DotLimits) -> (out: String)
    requires
        arena.wf(),
        root.0 < arena@.len(),
    ensures
        out@ == reason_dot_text(arena@, root, limits),
{
    let order = reason_order(arena, root, limits.max_reason_nodes);
    render_reason_dot(arena, &order, limits.max_lit_label_len)
}

} // verus!
