//! The diagnostics of the equality exchange, as records.

use crate::eqshare_trace::EqShareEvent;
use crate::sat::Lit;
use crate::text::{append_decimal, decimal, fmt_reason, fmt_term, reason_text, term_text};
use vstd::prelude::*;
use vstd::string::StringExecFns;

verus! {

/// A diagnostic record of the equality exchange.
#[derive(Debug, Clone)]
pub enum EqShareDiagnostic {
    /// The number of shared terms at the start of a round.
    SharedStats { epoch: u64, shared_terms: usize },
    /// The first delivery of an equality between two theories in a round.
    Exchange(EqShareEvent),
}

/// The records that report the given deliveries.
pub open spec fn exchange_records(events: Seq<EqShareEvent>) -> Seq<EqShareDiagnostic> {
    events.map_values(|ev: EqShareEvent| EqShareDiagnostic::Exchange(ev))
}

/// The line that reports the number of shared terms at the start of a round.
pub open spec fn stats_line(epoch: u64, shared_terms: usize) -> Seq<char> {
    "[eqshare][epoch="@ + decimal(epoch as nat) + "]: shared_terms="@ + decimal(shared_terms as nat)
}

/// The line that reports a delivery. The justification is left out where
/// its text is empty.
pub open spec fn exchange_line(
    ev: EqShareEvent,
    src_name: Seq<char>,
    dst_name: Seq<char>,
    lits: Seq<Lit>,
    max_reason_lits: nat,
) -> Seq<char> {
    let head = "[eqshare][epoch="@ + decimal(ev.epoch as nat) + "]: "@ + src_name + " -> "@ + dst_name
        + " "@ + term_text(ev.a) + " = "@ + term_text(ev.b);
    let reason = reason_text(lits, max_reason_lits, ", "@);
    if reason.len() == 0 {
        head
    } else {
        head + "  because "@ + reason
    }
}

/// Puts the count of shared terms into words.
pub fn render_stats(epoch: u64, shared_terms: usize) -> (line: String)
    ensures
        line@ == stats_line(epoch, shared_terms),
{
    let mut line = String::new();
    line.append("[eqshare][epoch=");
    append_decimal(&mut line, epoch);
    line.append("]: shared_terms=");
    append_decimal(&mut line, shared_terms as u64);
    assert(line@ =~= stats_line(epoch, shared_terms));
    line
}

/// Puts a delivery into words: the round, the names of the two theories,
/// the two terms, and the first `max_reason_lits` literals of the
/// justification.
pub fn render_exchange(
    ev: &EqShareEvent,
    src_name: &str,
    dst_name: &str,
    lits: &Vec<Lit>,
    max_reason_lits: usize,
) -> (line: String)
    ensures
        line@ == exchange_line(*ev, src_name@, dst_name@, lits@, max_reason_lits as nat),
{
    let mut line = String::new();
    line.append("[eqshare][epoch=");
    append_decimal(&mut line, ev.epoch);
    line.append("]: ");
    line.append(src_name);
    line.append(" -> ");
    line.append(dst_name);
    line.append(" ");
    let a = fmt_term(ev.a);
    line.append(a.as_str());
    line.append(" = ");
    let b = fmt_term(ev.b);
    line.append(b.as_str());
    let ghost head = line@;
    let reason = fmt_reason(lits, max_reason_lits, ", ");
    if !reason.as_str().is_empty() {
        line.append("  because ");
        line.append(reason.as_str());
    }
    proof {
        assert(head =~= "[eqshare][epoch="@ + decimal(ev.epoch as nat) + "]: "@ + src_name@
            + " -> "@ + dst_name@ + " "@ + term_text(ev.a) + " = "@ + term_text(ev.b));
        if reason@.len() != 0 {
            assert(line@ =~= head + "  because "@ + reason@);
        }
    }
    line
}

} // verus!
