//! Rendering of the trace of the equality exchange in the DOT language.

use crate::count::lemma_distinct_numbers;
use crate::eqshare_trace::EqShareEvent;
use crate::reason::{expand, ReasonArena, ReasonNode};
use crate::sharing::{dedup_key, first_seen, key_of, keys_of, lemma_keys_of_push};
use crate::tables::{KeySet, IdMap};
use crate::term::{Context, TermId};
use crate::text::{append_decimal, decimal, fmt_reason, fmt_term, reason_text, term_text};
use vstd::prelude::*;
use vstd::string::StringExecFns;

verus! {

/// Bounds of a rendering of the trace.
#[derive(Debug, Clone, Copy)]
pub struct EqDotLimits {
    /// Events beyond this number are left out.
    pub max_events: usize,
    /// The number of literals of a justification that an edge shows.
    pub max_reason_lits: usize,
    /// Whether each edge is accompanied by a node for its justification.
    pub include_reason_nodes: bool,
}

impl Default for EqDotLimits {
    fn default() -> (limits: Self)
        ensures
            limits.max_events == 300,
            limits.max_reason_lits == 6,
            !limits.include_reason_nodes,
    {
        Self { max_events: 300, max_reason_lits: 6, include_reason_nodes: false }
    }
}

/// The events that a rendering shows: of the first `max_events` events
/// those whose key no earlier event has.
pub open spec fn shown_events(events: Seq<EqShareEvent>, max_events: nat) -> Seq<EqShareEvent> {
    if events.len() > max_events {
        first_seen(events.take(max_events as int), Set::empty())
    } else {
        first_seen(events, Set::empty())
    }
}

/// `numbered` with `t` behind it, unless it holds `t` already.
pub open spec fn note_term(numbered: Seq<TermId>, t: TermId) -> Seq<TermId> {
    if numbered.contains(t) {
        numbered
    } else {
        numbered.push(t)
    }
}

/// The terms of the events shown, each once, in the order in which they
/// first occur. A term is named by its position in this list.
pub open spec fn numbered_terms(shown: Seq<EqShareEvent>) -> Seq<TermId>
    decreases shown.len(),
{
    if shown.len() == 0 {
        Seq::empty()
    } else {
        note_term(note_term(numbered_terms(shown.drop_last()), shown.last().a), shown.last().b)
    }
}

/// What a rendering needs of an event that it shows: a justification in the
/// store and the names of both theories.
pub open spec fn event_ok(ev: EqShareEvent, n_reasons: nat, n_names: nat) -> bool {
    ev.explain.0 < n_reasons && ev.src.0 < n_names && ev.dst.0 < n_names
}

/// Every event has what a rendering needs.
pub open spec fn events_ok(shown: Seq<EqShareEvent>, n_reasons: nat, n_names: nat) -> bool {
    forall|k: int| 0 <= k < shown.len() ==> event_ok(#[trigger] shown[k], n_reasons, n_names)
}

/// The names as texts.
pub open spec fn names_view(names: Seq<&'static str>) -> Seq<Seq<char>> {
    names.map_values(|name: &'static str| name@)
}

/// The name of the term at position `i` of the numbering.
pub open spec fn term_name(i: nat) -> Seq<char> {
    "t"@ + decimal(i)
}

/// The label of an edge: the two theories, the round, and below them the
/// justification, where its text is not empty.
pub open spec fn edge_label(
    ev: EqShareEvent,
    src_name: Seq<char>,
    dst_name: Seq<char>,
    reason: Seq<char>,
) -> Seq<char> {
    let head = src_name + "→"@ + dst_name + " @"@ + decimal(ev.epoch as nat);
    if reason.len() == 0 {
        head
    } else {
        head + "\\n"@ + reason
    }
}

/// The line of the edge between the terms at positions `na` and `nb`.
pub open spec fn event_edge(na: nat, nb: nat, label: Seq<char>) -> Seq<char> {
    "  "@ + term_name(na) + " -> "@ + term_name(nb) + " [label=\""@ + label + "\"];\n"@
}

/// The name of the node of a justification.
pub open spec fn reason_name(ev: EqShareEvent) -> Seq<char> {
    "r"@ + decimal(ev.explain.0 as nat)
}

/// The line that declares the node of the justification of an event.
pub open spec fn reason_node_line(ev: EqShareEvent) -> Seq<char> {
    "  "@ + reason_name(ev) + " [shape=box,style=dashed,label=\"ReasonId("@ + decimal(
        ev.explain.0 as nat,
    ) + ")\"];\n"@
}

/// The dotted line from the first term of an event to its justification.
pub open spec fn reason_in_line(ev: EqShareEvent, na: nat) -> Seq<char> {
    "  "@ + term_name(na) + " -> "@ + reason_name(ev) + " [style=dotted,arrowhead=none];\n"@
}

/// The dotted line from the justification of an event to its second term.
pub open spec fn reason_out_line(ev: EqShareEvent, nb: nat) -> Seq<char> {
    "  "@ + reason_name(ev) + " -> "@ + term_name(nb) + " [style=dotted,arrowhead=none];\n"@
}

/// The lines of one event: its edge, and the node of its justification with
/// two dotted edges where these are asked for.
pub open spec fn event_lines(
    ev: EqShareEvent,
    na: nat,
    nb: nat,
    label: Seq<char>,
    include_reason_nodes: bool,
) -> Seq<char> {
    if include_reason_nodes {
        event_edge(na, nb, label) + reason_node_line(ev) + reason_in_line(ev, na) + reason_out_line(
            ev,
            nb,
        )
    } else {
        event_edge(na, nb, label)
    }
}

/// The lines of the first `n` events shown, the terms named by `numbered`.
pub open spec fn edges_text(
    s: Seq<ReasonNode>,
    shown: Seq<EqShareEvent>,
    n: nat,
    numbered: Seq<TermId>,
    names: Seq<Seq<char>>,
    limits: EqDotLimits,
) -> Seq<char>
    decreases n,
{
    if n == 0 {
        Seq::empty()
    } else {
        let ev = shown[n - 1];
        edges_text(s, shown, (n - 1) as nat, numbered, names, limits) + event_lines(
            ev,
            numbered.index_of(ev.a) as nat,
            numbered.index_of(ev.b) as nat,
            edge_label(
                ev,
                names[ev.src.0 as int],
                names[ev.dst.0 as int],
                reason_text(expand(s, ev.explain), limits.max_reason_lits as nat, ","@),
            ),
            limits.include_reason_nodes,
        )
    }
}

/// The line that declares a term.
pub open spec fn term_line(t: u32, i: u32) -> Seq<char> {
    "  "@ + term_name(i as nat) + " [shape=ellipse,label=\""@ + term_text(TermId(t)) + "\"];\n"@
}

/// The lines that declare the terms listed, in the order of the list.
pub open spec fn term_lines(listing: Seq<(u32, u32)>) -> Seq<char>
    decreases listing.len(),
{
    if listing.len() == 0 {
        Seq::empty()
    } else {
        term_lines(listing.drop_last()) + term_line(listing.last().0, listing.last().1)
    }
}

/// The note that says how many events there are and how many are shown.
pub open spec fn truncated_line(n_events: nat, max_events: nat) -> Seq<char> {
    "  truncated [shape=note,label=\"TRUNCATED: events="@ + decimal(n_events) + " max_events="@
        + decimal(max_events) + "\"];\n"@
}

/// `listing` lists each term of the numbering once, with its position, in
/// some order.
pub open spec fn lists_numbering(listing: Seq<(u32, u32)>, numbered: Seq<TermId>) -> bool {
    &&& listing.no_duplicates()
    &&& forall|t: u32, i: u32| #[trigger]
        listing.contains((t, i)) <==> i < numbered.len() && numbered[i as int] == TermId(t)
}

/// The rendering of a trace whose terms are declared in the order of
/// `listing`.
pub open spec fn eqshare_dot_text(
    s: Seq<ReasonNode>,
    events: Seq<EqShareEvent>,
    names: Seq<Seq<char>>,
    limits: EqDotLimits,
    listing: Seq<(u32, u32)>,
) -> Seq<char> {
    let shown = shown_events(events, limits.max_events as nat);
    let body = "digraph EqShare {\n"@ + "  rankdir=LR;\n"@ + "  node [fontname=\"Helvetica\"];\n"@
        + edges_text(s, shown, shown.len(), numbered_terms(shown), names, limits) + term_lines(
        listing,
    );
    if events.len() > limits.max_events {
        body + truncated_line(events.len(), limits.max_events as nat) + "}\n"@
    } else {
        body + "}\n"@
    }
}

/// The map knows the position of each term of the numbering, and nothing
/// else.
spec fn numbering_matches(names: Map<u32, u32>, numbered: Seq<TermId>) -> bool {
    &&& forall|p: int|
        0 <= p < numbered.len() ==> names.dom().contains((#[trigger] numbered[p]).0)
            && names[numbered[p].0] == p
    &&& forall|id: u32| #[trigger]
        names.dom().contains(id) ==> names[id] < numbered.len() && numbered[names[id] as int]
            == TermId(id)
}

/// Different term handles are at most as many as there are numbers.
proof fn lemma_distinct_terms(terms: Seq<TermId>)
    requires
        terms.no_duplicates(),
    ensures
        terms.len() <= 0x1_0000_0000,
{
    let nums = terms.map_values(|t: TermId| t.0);
    assert forall|i: int, j: int| 0 <= i < nums.len() && 0 <= j < nums.len() && i != j implies nums[i]
        != nums[j] by {
        assert(terms[i] != terms[j]);
        assert(terms[i] == TermId(terms[i].0));
        assert(terms[j] == TermId(terms[j].0));
    }
    lemma_distinct_numbers(nums);
}

/// The events shown among the first `i` events are the first of those
/// shown among the first `n`.
proof fn lemma_first_seen_prefix(events: Seq<EqShareEvent>, i: int, n: int)
    requires
        0 <= i <= n <= events.len(),
    ensures
        first_seen(events.take(i), Set::empty()).is_prefix_of(
            first_seen(events.take(n), Set::empty()),
        ),
    decreases n - i,
{
    if i < n {
        lemma_first_seen_prefix(events, i, n - 1);
        assert(events.take(n).drop_last() =~= events.take(n - 1));
    }
}

/// A numbering that is continued names the terms it held as before.
proof fn lemma_edges_text_stable(
    s: Seq<ReasonNode>,
    shown: Seq<EqShareEvent>,
    n: nat,
    before: Seq<TermId>,
    after: Seq<TermId>,
    names: Seq<Seq<char>>,
    limits: EqDotLimits,
)
    requires
        n <= shown.len(),
        before.is_prefix_of(after),
        after.no_duplicates(),
        forall|k: int|
            0 <= k < n ==> before.contains((#[trigger] shown[k]).a) && before.contains(shown[k].b),
    ensures
        edges_text(s, shown, n, after, names, limits) == edges_text(s, shown, n, before, names, limits),
    decreases n,
{
    if n > 0 {
        lemma_edges_text_stable(s, shown, (n - 1) as nat, before, after, names, limits);
        let ev = shown[n - 1];
        lemma_index_stable(before, after, ev.a);
        lemma_index_stable(before, after, ev.b);
    }
}

/// The position of a term in a numbering without repetition stays when the
/// numbering is continued.
proof fn lemma_index_stable(before: Seq<TermId>, after: Seq<TermId>, t: TermId)
    requires
        before.is_prefix_of(after),
        after.no_duplicates(),
        before.contains(t),
    ensures
        after.index_of(t) == before.index_of(t),
        0 <= before.index_of(t) < before.len(),
        before[before.index_of(t)] == t,
{
    let p = before.index_of(t);
    assert(0 <= p < before.len() && before[p] == t);
    assert(after[p] == t);
    let q = after.index_of(t);
    assert(0 <= q < after.len() && after[q] == t);
}

/// The name of a term: its position in the numbering, which is continued
/// by the term if it is new.
fn number_of(
    term_nodes: &mut IdMap,
    next_term: &mut u64,
    t: TermId,
    Ghost(numbered): Ghost<Seq<TermId>>,
) -> (i: u32)
    requires
        numbered.no_duplicates(),
        numbering_matches(old(term_nodes)@, numbered),
        *old(next_term) == numbered.len(),
    ensures
        note_term(numbered, t).no_duplicates(),
        numbering_matches(final(term_nodes)@, note_term(numbered, t)),
        *final(next_term) == note_term(numbered, t).len(),
        i == note_term(numbered, t).index_of(t),
        numbered.is_prefix_of(note_term(numbered, t)),
        note_term(numbered, t).contains(t),
{
    let ghost after = note_term(numbered, t);
    proof {
        assert(t == TermId(t.0));
        if !numbered.contains(t) {
            assert(after == numbered.push(t));
            assert(after[numbered.len() as int] == t);
            assert forall|a: int, b: int|
                0 <= a < after.len() && 0 <= b < after.len() && a != b implies after[a] != after[b] by {
                if a < numbered.len() {
                    assert(numbered.contains(after[a]));
                }
                if b < numbered.len() {
                    assert(numbered.contains(after[b]));
                }
            }
            lemma_distinct_terms(after);
        }
    }
    match term_nodes.get(t.0) {
        Some(i) => {
            proof {
                assert(numbered[i as int] == t);
                assert(numbered.contains(t));
                let q = after.index_of(t);
                assert(after[q] == t);
            }
            i
        },
        None => {
            let ghost held = term_nodes@;
            proof {
                if numbered.contains(t) {
                    let p = choose|p: int| 0 <= p < numbered.len() && numbered[p] == t;
                    assert(held.dom().contains(numbered[p].0));
                }
            }
            let i = *next_term as u32;
            term_nodes.insert(t.0, i);
            *next_term = *next_term + 1;
            proof {
                let q = after.index_of(t);
                assert(after[q] == t);
                assert forall|p: int| 0 <= p < after.len() implies term_nodes@.dom().contains(
                    (#[trigger] after[p]).0,
                ) && term_nodes@[after[p].0] == p by {
                    if p < numbered.len() {
                        assert(after[p] == numbered[p]);
                        assert(numbered.contains(after[p]));
                        assert(held.dom().contains(numbered[p].0));
                    }
                }
                assert forall|id: u32| #[trigger] term_nodes@.dom().contains(id) implies term_nodes@[id]
                    < after.len() && after[term_nodes@[id] as int] == TermId(id) by {
                    if id != t.0 {
                        assert(held.dom().contains(id));
                        assert(after[held[id] as int] == numbered[held[id] as int]);
                    }
                }
            }
            i
        },
    }
}

/// Appends the name of the term at position `i` of the numbering.
fn append_term_name(out: &mut String, i: u32)
    ensures
        final(out)@ == old(out)@ + term_name(i as nat),
{
    out.append("t");
    append_decimal(out, i as u64);
    assert(out@ =~= old(out)@ + term_name(i as nat));
}

/// The label of an edge.
fn fmt_edge_label(ev: &EqShareEvent, src_name: &str, dst_name: &str, reason: &str) -> (label: String)
    ensures
        label@ == edge_label(*ev, src_name@, dst_name@, reason@),
{
    let mut label = String::new();
    label.append(src_name);
    label.append("→");
    label.append(dst_name);
    label.append(" @");
    append_decimal(&mut label, ev.epoch);
    let ghost head = label@;
    if !reason.is_empty() {
        label.append("\\n");
        label.append(reason);
    }
    proof {
        assert(head =~= src_name@ + "→"@ + dst_name@ + " @"@ + decimal(ev.epoch as nat));
        if reason@.len() != 0 {
            assert(label@ =~= head + "\\n"@ + reason@);
        }
    }
    label
}

/// Appends the name of the node of a justification.
fn append_reason_name(out: &mut String, ev: &EqShareEvent)
    ensures
        final(out)@ == old(out)@ + reason_name(*ev),
{
    out.append("r");
    append_decimal(out, ev.explain.0 as u64);
    assert(out@ =~= old(out)@ + reason_name(*ev));
}

/// Appends the line of the edge of an event.
fn append_event_edge(out: &mut String, na: u32, nb: u32, label: &str)
    ensures
        final(out)@ == old(out)@ + event_edge(na as nat, nb as nat, label@),
{
    out.append("  ");
    append_term_name(out, na);
    out.append(" -> ");
    append_term_name(out, nb);
    out.append(" [label=\"");
    out.append(label);
    out.append("\"];\n");
    assert(out@ =~= old(out)@ + event_edge(na as nat, nb as nat, label@));
}

/// Appends the line that declares the node of a justification.
fn append_reason_node_line(out: &mut String, ev: &EqShareEvent)
    ensures
        final(out)@ == old(out)@ + reason_node_line(*ev),
{
    out.append("  ");
    append_reason_name(out, ev);
    out.append(" [shape=box,style=dashed,label=\"ReasonId(");
    append_decimal(out, ev.explain.0 as u64);
    out.append(")\"];\n");
    assert(out@ =~= old(out)@ + reason_node_line(*ev));
}

/// Appends the dotted line from the first term to the justification.
fn append_reason_in_line(out: &mut String, ev: &EqShareEvent, na: u32)
    ensures
        final(out)@ == old(out)@ + reason_in_line(*ev, na as nat),
{
    out.append("  ");
    append_term_name(out, na);
    out.append(" -> ");
    append_reason_name(out, ev);
    out.append(" [style=dotted,arrowhead=none];\n");
    assert(out@ =~= old(out)@ + reason_in_line(*ev, na as nat));
}

/// Appends the dotted line from the justification to the second term.
fn append_reason_out_line(out: &mut String, ev: &EqShareEvent, nb: u32)
    ensures
        final(out)@ == old(out)@ + reason_out_line(*ev, nb as nat),
{
    out.append("  ");
    append_reason_name(out, ev);
    out.append(" -> ");
    append_term_name(out, nb);
    out.append(" [style=dotted,arrowhead=none];\n");
    assert(out@ =~= old(out)@ + reason_out_line(*ev, nb as nat));
}

/// Appends the lines of one event.
fn append_event_lines(
    out: &mut String,
    ev: &EqShareEvent,
    na: u32,
    nb: u32,
    label: &str,
    include_reason_nodes: bool,
)
    ensures
        final(out)@ == old(out)@ + event_lines(
            *ev,
            na as nat,
            nb as nat,
            label@,
            include_reason_nodes,
        ),
{
    append_event_edge(out, na, nb, label);
    if include_reason_nodes {
        append_reason_node_line(out, ev);
        append_reason_in_line(out, ev, na);
        append_reason_out_line(out, ev, nb);
        assert(out@ =~= old(out)@ + (event_edge(na as nat, nb as nat, label@) + reason_node_line(*ev)
            + reason_in_line(*ev, na as nat) + reason_out_line(*ev, nb as nat)));
    }
}

/// The lines that declare the terms listed, in the order of the list.
pub fn render_term_lines(listing: &Vec<(u32, u32)>) -> (out: String)
    ensures
        out@ == term_lines(listing@),
{
    let mut out = String::new();
    let mut i: usize = 0;
    proof {
        assert(listing@.take(0) =~= Seq::<(u32, u32)>::empty());
    }
    while i < listing.len()
        invariant
            i <= listing.len(),
            out@ == term_lines(listing@.take(i as int)),
        decreases listing.len() - i,
    {
        let ghost before = out@;
        out.append("  ");
        append_term_name(&mut out, listing[i].1);
        out.append(" [shape=ellipse,label=\"");
        let label = fmt_term(TermId(listing[i].0));
        out.append(label.as_str());
        out.append("\"];\n");
        i = i + 1;
        proof {
            let upto = listing@.take(i as int);
            assert(upto.drop_last() =~= listing@.take(i - 1));
            assert(upto.last() == listing@[i - 1]);
            assert(out@ =~= before + term_line(listing@[i - 1].0, listing@[i - 1].1));
        }
    }
    proof {
        assert(listing@.take(i as int) =~= listing@);
    }
    out
}

/// Whether each event that a rendering shows has what the rendering needs.
pub fn shown_events_ok(events: &[EqShareEvent], max_events: usize, n_reasons: usize, n_names: usize) -> (b:
    bool)
    ensures
        b == events_ok(shown_events(events@, max_events as nat), n_reasons as nat, n_names as nat),
{
    let ghost all_shown = shown_events(events@, max_events as nat);
    let limit = if events.len() > max_events {
        max_events
    } else {
        events.len()
    };
    proof {
        if events.len() <= max_events {
            assert(events@.take(limit as int) =~= events@);
        }
        assert(events@.take(0) =~= Seq::<EqShareEvent>::empty());
    }
    let mut seen = KeySet::new();
    let mut i: usize = 0;
    proof {
        assert(seen@ =~= keys_of(events@.take(0)));
    }
    while i < limit
        invariant
            i <= limit,
            limit <= events@.len(),
            all_shown == shown_events(events@, max_events as nat),
            all_shown == first_seen(events@.take(limit as int), Set::empty()),
            seen@ == keys_of(events@.take(i as int)),
            events_ok(
                first_seen(events@.take(i as int), Set::empty()),
                n_reasons as nat,
                n_names as nat,
            ),
        decreases limit - i,
    {
        let ev = &events[i];
        let ghost earlier = events@.take(i as int);
        let ghost upto = events@.take(i + 1);
        let ghost before = first_seen(earlier, Set::empty());
        let fresh = seen.insert(key_of(ev));
        proof {
            assert(upto.drop_last() =~= earlier);
            assert(upto.last() == *ev);
            assert(upto =~= earlier.push(*ev));
            lemma_keys_of_push(earlier, *ev);
        }
        if fresh {
            proof {
                assert(first_seen(upto, Set::empty()) == before.push(*ev));
            }
            if !((ev.explain.0 as usize) < n_reasons && ev.src.0 < n_names && ev.dst.0 < n_names) {
                proof {
                    let shown = first_seen(upto, Set::empty());
                    lemma_first_seen_prefix(events@, i + 1, limit as int);
                    assert(shown.is_prefix_of(all_shown));
                    assert(shown[before.len() as int] == *ev);
                    assert(all_shown.subrange(0, shown.len() as int)[before.len() as int] == *ev);
                    assert(all_shown[before.len() as int] == *ev);
                    assert(before.len() < all_shown.len());
                    assert(!event_ok(all_shown[before.len() as int], n_reasons as nat, n_names as nat));
                    assert(!events_ok(all_shown, n_reasons as nat, n_names as nat));
                }
                return false;
            }
            proof {
                let shown = first_seen(upto, Set::empty());
                assert forall|k: int| 0 <= k < shown.len() implies event_ok(
                    #[trigger] shown[k],
                    n_reasons as nat,
                    n_names as nat,
                ) by {
                    if k < before.len() {
                        assert(shown[k] == before[k]);
                    }
                }
            }
        }
        i = i + 1;
    }
    true
}

/// Renders the trace: an edge for each event shown, from its first term to
/// its second, and a node for each term of these events. The nodes are
/// declared in the order in which the table of terms hands them out.
pub fn eqshare_to_dot(
    ctx: &Context,
    reasons: &ReasonArena,
    events: &[EqShareEvent],
    theory_names: &[&'static str],
    limits: EqDotLimits,
) -> (out: String)
    requires
        reasons.wf(),
        events_ok(
            shown_events(events@, limits.max_events as nat),
            reasons@.len(),
            theory_names@.len(),
        ),
    ensures
        exists|listing: Seq<(u32, u32)>|
            {
                &&& #[trigger] lists_numbering(
                    listing,
                    numbered_terms(shown_events(events@, limits.max_events as nat)),
                )
                &&& out@ == eqshare_dot_text(
                    reasons@,
                    events@,
                    names_view(theory_names@),
                    limits,
                    listing,
                )
            },
{
    let ghost s = reasons@;
    let ghost names = names_view(theory_names@);
    let ghost all_shown = shown_events(events@, limits.max_events as nat);
    let limit = if events.len() > limits.max_events {
        limits.max_events
    } else {
        events.len()
    };
    proof {
        if events.len() <= limits.max_events {
            assert(events@.take(limit as int) =~= events@);
        }
        assert(all_shown == first_seen(events@.take(limit as int), Set::empty()));
    }
    let mut out = String::new();
    out.append("digraph EqShare {\n");
    out.append("  rankdir=LR;\n");
    out.append("  node [fontname=\"Helvetica\"];\n");
    let ghost head = out@;
    let mut term_nodes = IdMap::new();
    let mut next_term: u64 = 0;
    let mut edge_seen = KeySet::new();
    let ghost shown: Seq<EqShareEvent> = Seq::empty();
    let ghost numbered: Seq<TermId> = Seq::empty();
    let mut i: usize = 0;
    proof {
        assert(events@.take(0) =~= Seq::<EqShareEvent>::empty());
        assert(edge_seen@ =~= keys_of(events@.take(0)));
        assert(out@ =~= head + edges_text(s, shown, 0, numbered, names, limits));
    }
    while i < limit
        invariant
            i <= limit,
            limit <= events@.len(),
            s == reasons@,
            names == names_view(theory_names@),
            reasons.wf(),
            all_shown == first_seen(events@.take(limit as int), Set::empty()),
            events_ok(all_shown, s.len(), names.len()),
            edge_seen@ == keys_of(events@.take(i as int)),
            shown == first_seen(events@.take(i as int), Set::empty()),
            numbered == numbered_terms(shown),
            numbered.no_duplicates(),
            numbering_matches(term_nodes@, numbered),
            next_term == numbered.len(),
            forall|k: int|
                0 <= k < shown.len() ==> numbered.contains((#[trigger] shown[k]).a)
                    && numbered.contains(shown[k].b),
            out@ == head + edges_text(s, shown, shown.len(), numbered, names, limits),
        decreases limit - i,
    {
        let ev = &events[i];
        let ghost earlier = events@.take(i as int);
        let ghost upto = events@.take(i + 1);
        let ghost old_shown = shown;
        let ghost old_numbered = numbered;
        let fresh = edge_seen.insert(key_of(ev));
        proof {
            assert(upto.drop_last() =~= earlier);
            assert(upto.last() == *ev);
            assert(upto =~= earlier.push(*ev));
            lemma_keys_of_push(earlier, *ev);
            assert(fresh <==> !keys_of(earlier).contains(dedup_key(*ev)));
        }
        if fresh {
            proof {
                shown = old_shown.push(*ev);
                assert(shown == first_seen(upto, Set::empty()));
                lemma_first_seen_prefix(events@, i + 1, limit as int);
                assert(shown.is_prefix_of(all_shown));
                assert(shown[old_shown.len() as int] == *ev);
                assert(all_shown.subrange(0, shown.len() as int)[old_shown.len() as int] == *ev);
                assert(all_shown[old_shown.len() as int] == *ev);
                assert(event_ok(*ev, s.len(), names.len()));
            }
            let na = number_of(&mut term_nodes, &mut next_term, ev.a, Ghost(numbered));
            let ghost mid = note_term(numbered, ev.a);
            let nb = number_of(&mut term_nodes, &mut next_term, ev.b, Ghost(mid));
            proof {
                numbered = note_term(mid, ev.b);
                assert(shown.drop_last() =~= old_shown);
                assert(shown.last() == *ev);
                assert(numbered == numbered_terms(shown));
                lemma_index_stable(mid, numbered, ev.a);
                assert(old_numbered.is_prefix_of(numbered));
                assert forall|k: int| 0 <= k < shown.len() implies numbered.contains(
                    (#[trigger] shown[k]).a,
                ) && numbered.contains(shown[k].b) by {
                    if k < old_shown.len() {
                        assert(shown[k] == old_shown[k]);
                        lemma_index_stable(old_numbered, numbered, shown[k].a);
                        lemma_index_stable(old_numbered, numbered, shown[k].b);
                        assert(numbered[old_numbered.index_of(shown[k].a)] == shown[k].a);
                        assert(numbered[old_numbered.index_of(shown[k].b)] == shown[k].b);
                    }
                }
                lemma_edges_text_stable(
                    s,
                    old_shown,
                    old_shown.len(),
                    old_numbered,
                    numbered,
                    names,
                    limits,
                );
                lemma_edges_text_same(
                    s,
                    old_shown,
                    shown,
                    old_shown.len(),
                    numbered,
                    names,
                    limits,
                );
            }
            let src_name = theory_names[ev.src.0];
            let dst_name = theory_names[ev.dst.0];
            proof {
                assert(names[ev.src.0 as int] == src_name@);
                assert(names[ev.dst.0 as int] == dst_name@);
            }
            let lits = reasons.expand_lits(ev.explain);
            let reason = fmt_reason(&lits, limits.max_reason_lits, ",");
            let label = fmt_edge_label(ev, src_name, dst_name, reason.as_str());
            append_event_lines(&mut out, ev, na, nb, label.as_str(), limits.include_reason_nodes);
            proof {
                assert(out@ =~= head + edges_text(s, shown, shown.len(), numbered, names, limits));
            }
        } else {
            proof {
                assert(shown == first_seen(upto, Set::empty()));
            }
        }
        i = i + 1;
    }
    let entries = term_nodes.into_entries();
    let nodes = render_term_lines(&entries);
    out.append(nodes.as_str());
    if events.len() > limits.max_events {
        out.append("  truncated [shape=note,label=\"TRUNCATED: events=");
        append_decimal(&mut out, events.len() as u64);
        out.append(" max_events=");
        append_decimal(&mut out, limits.max_events as u64);
        out.append("\"];\n");
    }
    out.append("}\n");
    proof {
        let listing = entries@;
        assert forall|t: u32, p: u32| #[trigger]
            listing.contains((t, p)) <==> p < numbered.len() && numbered[p as int] == TermId(t) by {
            if p < numbered.len() && numbered[p as int] == TermId(t) {
                assert(term_nodes@.dom().contains(numbered[p as int].0));
            }
        }
        assert(lists_numbering(listing, numbered_terms(all_shown)));
        assert(out@ =~= eqshare_dot_text(s, events@, names, limits, listing));
    }
    out
}

/// The lines of the first `n` events are the same for two sequences that
/// agree on these events.
proof fn lemma_edges_text_same(
    s: Seq<ReasonNode>,
    a: Seq<EqShareEvent>,
    b: Seq<EqShareEvent>,
    n: nat,
    numbered: Seq<TermId>,
    names: Seq<Seq<char>>,
    limits: EqDotLimits,
)
    requires
        n <= a.len(),
        a.is_prefix_of(b),
    ensures
        edges_text(s, a, n, numbered, names, limits) == edges_text(s, b, n, numbered, names, limits),
    decreases n,
{
    if n > 0 {
        lemma_edges_text_same(s, a, b, (n - 1) as nat, numbered, names, limits);
        assert(a[n - 1] == b[n - 1]);
    }
}

} // verus!
