//! Questions about a drained trace: which theories exchanged what.

use crate::atoms::TheoryId;
use crate::eqshare_trace::EqShareEvent;
use crate::term::TermId;
use crate::text::{append_decimal, decimal, fmt_term, term_text};
use vstd::prelude::*;
use vstd::string::StringExecFns;

verus! {

/// The position of the theory of uninterpreted functions.
pub fn uf() -> (id: TheoryId)
    ensures
        id == TheoryId(0),
{
    TheoryId(0)
}

/// The position of the theory of difference logic.
pub fn dl() -> (id: TheoryId)
    ensures
        id == TheoryId(1),
{
    TheoryId(1)
}

/// The event carries the equality of `a` and `b`, in either order, from
/// `src` to `dst`.
pub open spec fn is_hop(ev: EqShareEvent, src: TheoryId, dst: TheoryId, a: TermId, b: TermId) -> bool {
    ev.src == src && ev.dst == dst && ((ev.a == a && ev.b == b) || (ev.a == b && ev.b == a))
}

/// The event goes from `src` to `dst`.
pub open spec fn is_dir(ev: EqShareEvent, src: TheoryId, dst: TheoryId) -> bool {
    ev.src == src && ev.dst == dst
}

/// The text of an event.
pub open spec fn event_text(ev: EqShareEvent) -> Seq<char> {
    "epoch="@ + decimal(ev.epoch as nat) + " TheoryId("@ + decimal(ev.src.0 as nat) + ")->TheoryId("@
        + decimal(ev.dst.0 as nat) + ") a="@ + term_text(ev.a) + " b="@ + term_text(ev.b)
        + " reason=ReasonId("@ + decimal(ev.explain.0 as nat) + ")"@
}

/// The texts of the events, one on each line.
pub open spec fn events_text(events: Seq<EqShareEvent>) -> Seq<char>
    decreases events.len(),
{
    if events.len() == 0 {
        Seq::empty()
    } else if events.len() == 1 {
        event_text(events[0])
    } else {
        events_text(events.drop_last()) + "\n"@ + event_text(events.last())
    }
}

/// The texts of the first forty events, one on each line.
pub open spec fn dump_text(events: Seq<EqShareEvent>) -> Seq<char> {
    if events.len() > 40 {
        events_text(events.take(40))
    } else {
        events_text(events)
    }
}

/// Whether the equality of `a` and `b` went from `src` to `dst`.
pub fn has_pair(events: &[EqShareEvent], src: TheoryId, dst: TheoryId, a: TermId, b: TermId) -> (found:
    bool)
    ensures
        found <==> exists|i: int| 0 <= i < events@.len() && is_hop(#[trigger] events@[i], src, dst, a, b),
{
    let mut i: usize = 0;
    while i < events.len()
        invariant
            i <= events@.len(),
            forall|k: int| 0 <= k < i ==> !is_hop(#[trigger] events@[k], src, dst, a, b),
        decreases events@.len() - i,
    {
        let e = &events[i];
        if e.src.0 == src.0 && e.dst.0 == dst.0 && ((e.a.0 == a.0 && e.b.0 == b.0) || (e.a.0 == b.0
            && e.b.0 == a.0)) {
            return true;
        }
        i = i + 1;
    }
    false
}

/// Whether anything went from `src` to `dst`.
pub fn has_dir(events: &[EqShareEvent], src: TheoryId, dst: TheoryId) -> (found: bool)
    ensures
        found <==> exists|i: int| 0 <= i < events@.len() && is_dir(#[trigger] events@[i], src, dst),
{
    let mut i: usize = 0;
    while i < events.len()
        invariant
            i <= events@.len(),
            forall|k: int| 0 <= k < i ==> !is_dir(#[trigger] events@[k], src, dst),
        decreases events@.len() - i,
    {
        let e = &events[i];
        if e.src.0 == src.0 && e.dst.0 == dst.0 {
            return true;
        }
        i = i + 1;
    }
    false
}

/// The text of an event.
fn fmt_event(ev: &EqShareEvent) -> (text: String)
    ensures
        text@ == event_text(*ev),
{
    let mut text = String::new();
    text.append("epoch=");
    append_decimal(&mut text, ev.epoch);
    text.append(" TheoryId(");
    append_decimal(&mut text, ev.src.0 as u64);
    text.append(")->TheoryId(");
    append_decimal(&mut text, ev.dst.0 as u64);
    text.append(") a=");
    let a = fmt_term(ev.a);
    text.append(a.as_str());
    text.append(" b=");
    let b = fmt_term(ev.b);
    text.append(b.as_str());
    text.append(" reason=ReasonId(");
    append_decimal(&mut text, ev.explain.0 as u64);
    text.append(")");
    assert(text@ =~= event_text(*ev));
    text
}

/// The first forty events as text, one on each line.
pub fn dump(events: &[EqShareEvent]) -> (text: String)
    ensures
        text@ == dump_text(events@),
{
    let shown = if events.len() > 40 {
        40
    } else {
        events.len()
    };
    let mut text = String::new();
    let mut i: usize = 0;
    proof {
        assert(events@.take(0) =~= Seq::<EqShareEvent>::empty());
    }
    while i < shown
        invariant
            i <= shown,
            shown <= events@.len(),
            text@ == events_text(events@.take(i as int)),
        decreases shown - i,
    {
        if i > 0 {
            text.append("\n");
        }
        let one = fmt_event(&events[i]);
        text.append(one.as_str());
        i = i + 1;
        proof {
            let upto = events@.take(i as int);
            assert(upto.drop_last() =~= events@.take(i - 1));
            assert(upto.last() == events@[i - 1]);
            if i == 1 {
                assert(upto[0] == events@[0]);
                assert(text@ =~= event_text(events@[0]));
            } else {
                assert(text@ =~= events_text(events@.take(i - 1)) + "\n"@ + event_text(events@[i - 1]));
            }
        }
    }
    proof {
        if events@.len() <= 40 {
            assert(events@.take(shown as int) =~= events@);
        }
    }
    text
}

} // verus!
