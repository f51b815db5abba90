use smt_combine::atoms::TheoryId;
use smt_combine::eqshare_dot::{eqshare_to_dot, render_term_lines, EqDotLimits};
use smt_combine::eqshare_log::{render_exchange, render_stats};
use smt_combine::eqshare_query::{dl, dump, has_dir, has_pair, uf};
use smt_combine::eqshare_trace::EqShareEvent;
use smt_combine::reason::{Reason, ReasonArena, ReasonId};
use smt_combine::reason_dot::{reason_order, reason_to_dot, render_reason_dot, DotLimits};
use smt_combine::sat::{Lit, VarId};
use smt_combine::term::{Context, TermId};
use smt_combine::text::{append_decimal, decimal_string, fmt_lit, fmt_reason, fmt_term};
use smt_combine::unsat_bundle::{bundle_dir_name, bundle_readme};

fn pos(v: u32) -> Lit {
    Lit::pos(VarId(v))
}

fn neg(v: u32) -> Lit {
    Lit::neg(VarId(v))
}

fn event(epoch: u64, src: usize, dst: usize, a: u32, b: u32, explain: ReasonId) -> EqShareEvent {
    EqShareEvent { epoch, src: TheoryId(src), dst: TheoryId(dst), a: TermId(a), b: TermId(b), explain }
}

/// Leaves v1 and not-v2, their conjunction, and a root over the conjunction
/// and the first leaf.
fn small_dag() -> (ReasonArena, ReasonId) {
    let mut arena = ReasonArena::default();
    let a = arena.push(Reason::Atom(pos(1)));
    let b = arena.push(Reason::Atom(neg(2)));
    let c = arena.push(Reason::And(vec![a, b]));
    let root = arena.push(Reason::And(vec![c, a]));
    (arena, root)
}

#[test]
fn decimal_notation_has_no_leading_zeros() {
    assert_eq!(decimal_string(0), "0");
    assert_eq!(decimal_string(7), "7");
    assert_eq!(decimal_string(10), "10");
    assert_eq!(decimal_string(1234567890), "1234567890");
    assert_eq!(decimal_string(u64::MAX), "18446744073709551615");
    let mut text = String::from("n=");
    append_decimal(&mut text, 405);
    assert_eq!(text, "n=405");
}

#[test]
fn literal_text_marks_the_negative_literal() {
    assert_eq!(fmt_lit(pos(3)), "v3");
    assert_eq!(fmt_lit(neg(3)), "¬v3");
    assert_eq!(fmt_lit(neg(u32::MAX)), "¬v4294967295");
    assert_eq!(fmt_term(TermId(5)), "TermId(5)");
    assert_eq!(fmt_term(TermId(0)), format!("{:?}", TermId(0)));
}

#[test]
fn reason_text_shows_the_first_literals() {
    let lits = vec![pos(1), neg(2), pos(3)];
    assert_eq!(fmt_reason(&lits, 8, ", "), "v1, ¬v2, v3");
    assert_eq!(fmt_reason(&lits, 3, ", "), "v1, ¬v2, v3");
    assert_eq!(fmt_reason(&lits, 2, ", "), "v1, ¬v2, ...");
    assert_eq!(fmt_reason(&lits, 1, ","), "v1,...");
    assert_eq!(fmt_reason(&lits, 0, ", "), ", ...");
    assert_eq!(fmt_reason(&Vec::new(), 0, ", "), "");
    assert_eq!(fmt_reason(&vec![neg(9)], 1, ", "), "¬v9");
}

#[test]
fn diagnostic_lines_are_put_into_words() {
    assert_eq!(render_stats(4, 17), "[eqshare][epoch=4]: shared_terms=17");
    let ev = event(2, 0, 1, 5, 6, ReasonId(0));
    assert_eq!(
        render_exchange(&ev, "UF", "DL", &vec![pos(3)], 8),
        "[eqshare][epoch=2]: UF -> DL TermId(5) = TermId(6)  because v3"
    );
    assert_eq!(
        render_exchange(&ev, "DL", "UF", &vec![pos(3), neg(4), pos(5)], 2),
        "[eqshare][epoch=2]: DL -> UF TermId(5) = TermId(6)  because v3, ¬v4, ..."
    );
    assert_eq!(
        render_exchange(&ev, "UF", "DL", &Vec::new(), 8),
        "[eqshare][epoch=2]: UF -> DL TermId(5) = TermId(6)"
    );
}

#[test]
fn reason_dag_is_rendered_breadth_first() {
    let (arena, root) = small_dag();
    let order = reason_order(&arena, root, 300);
    assert_eq!(order, vec![ReasonId(3), ReasonId(2), ReasonId(0), ReasonId(1)]);
    let expected = "digraph Reason {\n  rankdir=LR;\n  node [fontname=\"Helvetica\"];\n  \
                    r0 [shape=box,label=\"AND (2)\"];\n  r1 [shape=box,label=\"AND (2)\"];\n  \
                    r2 [shape=ellipse,label=\"v1\"];\n  r3 [shape=ellipse,label=\"¬v2\"];\n  \
                    r0 -> r1;\n  r0 -> r2;\n  r1 -> r2;\n  r1 -> r3;\n}\n";
    assert_eq!(reason_to_dot(&arena, root, DotLimits::default()), expected);
    assert_eq!(render_reason_dot(&arena, &order, 64), expected);
}

#[test]
fn reason_dag_is_cut_at_the_node_limit() {
    let (arena, root) = small_dag();
    assert_eq!(reason_order(&arena, root, 2), vec![ReasonId(3), ReasonId(2)]);
    assert_eq!(reason_order(&arena, root, 1), vec![ReasonId(3)]);
    assert_eq!(reason_order(&arena, root, 0), vec![ReasonId(3)]);
    assert_eq!(reason_order(&arena, root, 3), vec![ReasonId(3), ReasonId(2), ReasonId(0)]);
    let limits = DotLimits { max_reason_nodes: 2, max_lit_label_len: 64 };
    assert_eq!(
        reason_to_dot(&arena, root, limits),
        "digraph Reason {\n  rankdir=LR;\n  node [fontname=\"Helvetica\"];\n  \
         r0 [shape=box,label=\"AND (2)\"];\n  r1 [shape=box,label=\"AND (2)\"];\n  r0 -> r1;\n}\n"
    );
}

#[test]
fn reason_dag_of_a_leaf_is_one_node() {
    let mut arena = ReasonArena::default();
    let a = arena.push(Reason::Atom(neg(12)));
    assert_eq!(
        reason_to_dot(&arena, a, DotLimits::default()),
        "digraph Reason {\n  rankdir=LR;\n  node [fontname=\"Helvetica\"];\n  \
         r0 [shape=ellipse,label=\"¬v12\"];\n}\n"
    );
}

#[test]
fn literal_labels_are_cut_by_bytes() {
    let mut arena = ReasonArena::default();
    let a = arena.push(Reason::Atom(pos(123)));
    let b = arena.push(Reason::Atom(neg(45)));
    let root = arena.push(Reason::And(vec![a, b]));
    let render = |len: usize| {
        reason_to_dot(&arena, root, DotLimits { max_reason_nodes: 300, max_lit_label_len: len })
    };
    let with = |first: &str, second: &str| {
        format!(
            "digraph Reason {{\n  rankdir=LR;\n  node [fontname=\"Helvetica\"];\n  \
             r0 [shape=box,label=\"AND (2)\"];\n  r1 [shape=ellipse,label=\"{}\"];\n  \
             r2 [shape=ellipse,label=\"{}\"];\n  r0 -> r1;\n  r0 -> r2;\n}}\n",
            first, second
        )
    };
    assert_eq!(render(0), with("", ""));
    assert_eq!(render(1), with("v", ""));
    assert_eq!(render(2), with("v1", "¬"));
    assert_eq!(render(3), with("v12", "¬v"));
    assert_eq!(render(4), with("v123", "¬v4"));
    assert_eq!(render(5), with("v123", "¬v45"));
}

fn exchange_store() -> (ReasonArena, ReasonId, ReasonId, ReasonId) {
    let mut arena = ReasonArena::default();
    let leaf = arena.push(Reason::Atom(pos(3)));
    let other = arena.push(Reason::Atom(neg(4)));
    let both = arena.push(Reason::And(vec![leaf, other]));
    let none = arena.push(Reason::And(Vec::new()));
    (arena, leaf, both, none)
}

fn split(dot: &str, head: &str, tail: &str) -> Vec<String> {
    assert!(dot.starts_with(head), "{:?} does not start with {:?}", dot, head);
    assert!(dot.ends_with(tail), "{:?} does not end with {:?}", dot, tail);
    let mut lines: Vec<String> =
        dot[head.len()..dot.len() - tail.len()].lines().map(|l| l.to_string()).collect();
    lines.sort();
    lines
}

#[test]
fn trace_is_rendered_with_one_edge_for_each_key() {
    let (arena, leaf, both, none) = exchange_store();
    let events = vec![
        event(0, 0, 1, 5, 6, leaf),
        event(0, 0, 1, 6, 5, leaf),
        event(0, 1, 0, 6, 7, both),
        event(1, 0, 1, 5, 6, none),
    ];
    let names: Vec<&'static str> = vec!["UF", "DL"];
    let dot = eqshare_to_dot(&Context::new(), &arena, &events, &names, EqDotLimits::default());
    let head = "digraph EqShare {\n  rankdir=LR;\n  node [fontname=\"Helvetica\"];\n  \
                t0 -> t1 [label=\"UF→DL @0\\nv3\"];\n  \
                t1 -> t2 [label=\"DL→UF @0\\n¬v4,v3\"];\n  \
                t0 -> t1 [label=\"UF→DL @1\"];\n";
    let nodes = split(&dot, head, "}\n");
    assert_eq!(
        nodes,
        vec![
            "  t0 [shape=ellipse,label=\"TermId(5)\"];",
            "  t1 [shape=ellipse,label=\"TermId(6)\"];",
            "  t2 [shape=ellipse,label=\"TermId(7)\"];",
        ]
    );
}

#[test]
fn trace_rendering_can_show_the_justifications() {
    let (arena, _leaf, both, _none) = exchange_store();
    let events = vec![event(3, 1, 0, 9, 9, both)];
    let names: Vec<&'static str> = vec!["UF", "DL"];
    let limits = EqDotLimits { max_events: 300, max_reason_lits: 1, include_reason_nodes: true };
    let dot = eqshare_to_dot(&Context::new(), &arena, &events, &names, limits);
    assert_eq!(
        dot,
        "digraph EqShare {\n  rankdir=LR;\n  node [fontname=\"Helvetica\"];\n  \
         t0 -> t0 [label=\"DL→UF @3\\n¬v4,...\"];\n  \
         r2 [shape=box,style=dashed,label=\"ReasonId(2)\"];\n  \
         t0 -> r2 [style=dotted,arrowhead=none];\n  r2 -> t0 [style=dotted,arrowhead=none];\n  \
         t0 [shape=ellipse,label=\"TermId(9)\"];\n}\n"
    );
}

#[test]
fn trace_rendering_notes_what_it_leaves_out() {
    let (arena, leaf, _both, _none) = exchange_store();
    let events = vec![
        event(0, 0, 1, 5, 6, leaf),
        event(0, 1, 0, 7, 8, ReasonId(77)),
        event(0, 5, 9, 7, 8, leaf),
    ];
    let names: Vec<&'static str> = vec!["UF", "DL"];
    let limits = EqDotLimits { max_events: 1, max_reason_lits: 6, include_reason_nodes: false };
    let dot = eqshare_to_dot(&Context::new(), &arena, &events, &names, limits);
    let head = "digraph EqShare {\n  rankdir=LR;\n  node [fontname=\"Helvetica\"];\n  \
                t0 -> t1 [label=\"UF→DL @0\\nv3\"];\n";
    let tail = "  truncated [shape=note,label=\"TRUNCATED: events=3 max_events=1\"];\n}\n";
    assert_eq!(
        split(&dot, head, tail),
        vec![
            "  t0 [shape=ellipse,label=\"TermId(5)\"];",
            "  t1 [shape=ellipse,label=\"TermId(6)\"];",
        ]
    );
    let nothing = EqDotLimits { max_events: 0, max_reason_lits: 6, include_reason_nodes: false };
    assert_eq!(
        eqshare_to_dot(&Context::new(), &arena, &events, &names, nothing),
        "digraph EqShare {\n  rankdir=LR;\n  node [fontname=\"Helvetica\"];\n  \
         truncated [shape=note,label=\"TRUNCATED: events=3 max_events=0\"];\n}\n"
    );
}

#[test]
fn empty_trace_is_rendered_as_an_empty_graph() {
    let arena = ReasonArena::default();
    let names: Vec<&'static str> = Vec::new();
    assert_eq!(
        eqshare_to_dot(&Context::new(), &arena, &[], &names, EqDotLimits::default()),
        "digraph EqShare {\n  rankdir=LR;\n  node [fontname=\"Helvetica\"];\n}\n"
    );
    assert_eq!(render_term_lines(&Vec::new()), "");
    assert_eq!(
        render_term_lines(&vec![(8, 1), (4, 0)]),
        "  t1 [shape=ellipse,label=\"TermId(8)\"];\n  t0 [shape=ellipse,label=\"TermId(4)\"];\n"
    );
}

#[test]
fn default_bounds_of_the_renderings() {
    let dot = DotLimits::default();
    assert_eq!((dot.max_reason_nodes, dot.max_lit_label_len), (300, 64));
    let eq = EqDotLimits::default();
    assert_eq!((eq.max_events, eq.max_reason_lits, eq.include_reason_nodes), (300, 6, false));
}

#[test]
fn trace_questions_look_at_direction_and_pair() {
    let events = vec![event(0, 0, 1, 5, 6, ReasonId(0)), event(1, 1, 0, 7, 8, ReasonId(1))];
    assert_eq!((uf(), dl()), (TheoryId(0), TheoryId(1)));
    assert!(has_dir(&events, uf(), dl()));
    assert!(has_dir(&events, dl(), uf()));
    assert!(!has_dir(&events, uf(), uf()));
    assert!(!has_dir(&events[..1], dl(), uf()));
    assert!(!has_dir(&[], uf(), dl()));
    assert!(has_pair(&events, uf(), dl(), TermId(5), TermId(6)));
    assert!(has_pair(&events, uf(), dl(), TermId(6), TermId(5)));
    assert!(!has_pair(&events, dl(), uf(), TermId(5), TermId(6)));
    assert!(!has_pair(&events, uf(), dl(), TermId(5), TermId(5)));
    assert!(has_pair(&events, dl(), uf(), TermId(8), TermId(7)));
}

#[test]
fn dump_shows_the_first_forty_events() {
    assert_eq!(dump(&[]), "");
    let one = vec![event(3, 0, 1, 5, 6, ReasonId(2))];
    assert_eq!(dump(&one), "epoch=3 TheoryId(0)->TheoryId(1) a=TermId(5) b=TermId(6) reason=ReasonId(2)");
    let many: Vec<EqShareEvent> = (0..45).map(|i| event(i, 1, 0, 1, 2, ReasonId(0))).collect();
    let text = dump(&many);
    let lines: Vec<&str> = text.split('\n').collect();
    assert_eq!(lines.len(), 40);
    assert_eq!(lines[0], "epoch=0 TheoryId(1)->TheoryId(0) a=TermId(1) b=TermId(2) reason=ReasonId(0)");
    assert_eq!(lines[39], "epoch=39 TheoryId(1)->TheoryId(0) a=TermId(1) b=TermId(2) reason=ReasonId(0)");
    assert_eq!(
        lines[7],
        format!(
            "epoch={} {:?}->{:?} a={:?} b={:?} reason={:?}",
            7,
            TheoryId(1),
            TheoryId(0),
            TermId(1),
            TermId(2),
            ReasonId(0)
        )
    );
}

#[test]
fn bundle_texts_name_the_round_and_the_conflict() {
    assert_eq!(bundle_dir_name(4242, 7), "smt-debug-4242-7");
    assert_eq!(
        bundle_readme(ReasonId(12)),
        "SMT UNSAT DEBUG BUNDLE\n\nFiles:\n  - eqshare.dot   : equality-sharing exchanges (terms + \
         edges with direction/epoch)\n  - conflict.dot  : reason DAG for the reported conflict \
         reason\n\nRender to SVG:\n  dot -Tsvg eqshare.dot  > eqshare.svg\n  dot -Tsvg conflict.dot > \
         conflict.svg\n\nConflict root ReasonId: 12\n"
    );
}
