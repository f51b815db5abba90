//! Building text: decimal numbers and the few pieces that the renderings share.

use crate::sat::Lit;
use crate::term::TermId;
use vstd::prelude::*;
use vstd::string::StringExecFns;

verus! {

/// The character of a decimal digit.
pub open spec fn digit(d: nat) -> char {
    if d == 0 {
        '0'
    } else if d == 1 {
        '1'
    } else if d == 2 {
        '2'
    } else if d == 3 {
        '3'
    } else if d == 4 {
        '4'
    } else if d == 5 {
        '5'
    } else if d == 6 {
        '6'
    } else if d == 7 {
        '7'
    } else if d == 8 {
        '8'
    } else {
        '9'
    }
}

/// The decimal notation of a number, without leading zeros.
pub open spec fn decimal(n: nat) -> Seq<char>
    decreases n,
{
    if n < 10 {
        seq![digit(n)]
    } else {
        decimal(n / 10).push(digit(n % 10))
    }
}

/// The text of one decimal digit.
fn digit_str(d: u64) -> (text: &'static str)
    requires
        d < 10,
    ensures
        text@ == seq![digit(d as nat)],
{
    proof {
        reveal_strlit("0");
        reveal_strlit("1");
        reveal_strlit("2");
        reveal_strlit("3");
        reveal_strlit("4");
        reveal_strlit("5");
        reveal_strlit("6");
        reveal_strlit("7");
        reveal_strlit("8");
        reveal_strlit("9");
    }
    let text = if d == 0 {
        "0"
    } else if d == 1 {
        "1"
    } else if d == 2 {
        "2"
    } else if d == 3 {
        "3"
    } else if d == 4 {
        "4"
    } else if d == 5 {
        "5"
    } else if d == 6 {
        "6"
    } else if d == 7 {
        "7"
    } else if d == 8 {
        "8"
    } else {
        "9"
    };
    assert(text@ =~= seq![digit(d as nat)]);
    text
}

/// Appends the decimal notation of `n`.
pub fn append_decimal(out: &mut String, n: u64)
    ensures
        final(out)@ == old(out)@ + decimal(n as nat),
    decreases n,
{
    if n >= 10 {
        append_decimal(out, n / 10);
    }
    out.append(digit_str(n % 10));
    proof {
        if n >= 10 {
            assert(out@ =~= old(out)@ + decimal((n / 10) as nat).push(digit((n % 10) as nat)));
        } else {
            assert(out@ =~= old(out)@ + seq![digit(n as nat)]);
        }
    }
}

/// The decimal notation of `n`.
pub fn decimal_string(n: u64) -> (text: String)
    ensures
        text@ == decimal(n as nat),
{
    let mut text = String::new();
    append_decimal(&mut text, n);
    assert(Seq::<char>::empty() + decimal(n as nat) =~= decimal(n as nat));
    text
}

/// The text of a literal: `v` and the number of its variable, behind a
/// negation sign if the literal is negative.
pub open spec fn lit_text(l: Lit) -> Seq<char> {
    if l.is_pos() {
        "v"@ + decimal(l.var().0 as nat)
    } else {
        "¬v"@ + decimal(l.var().0 as nat)
    }
}

/// The texts of the literals, with `sep` between one and the next.
pub open spec fn lits_text(lits: Seq<Lit>, sep: Seq<char>) -> Seq<char>
    decreases lits.len(),
{
    if lits.len() == 0 {
        Seq::empty()
    } else if lits.len() == 1 {
        lit_text(lits[0])
    } else {
        lits_text(lits.drop_last(), sep) + sep + lit_text(lits.last())
    }
}

/// The text of a justification: its first `max` literals, and a mark
/// behind them if there are more.
pub open spec fn reason_text(lits: Seq<Lit>, max: nat, sep: Seq<char>) -> Seq<char> {
    if lits.len() > max {
        lits_text(lits.take(max as int), sep) + sep + "..."@
    } else {
        lits_text(lits, sep)
    }
}

/// The text of a term handle.
pub open spec fn term_text(t: TermId) -> Seq<char> {
    "TermId("@ + decimal(t.0 as nat) + ")"@
}

/// The text of a literal.
pub fn fmt_lit(l: Lit) -> (text: String)
    ensures
        text@ == lit_text(l),
{
    let mut text = String::new();
    if l.is_pos() {
        text.append("v");
    } else {
        text.append("¬v");
    }
    append_decimal(&mut text, l.var().0 as u64);
    assert(text@ =~= lit_text(l));
    text
}

/// The text of a justification that expands to `lits`.
pub fn fmt_reason(lits: &Vec<Lit>, max: usize, sep: &str) -> (text: String)
    ensures
        text@ == reason_text(lits@, max as nat, sep@),
{
    let shown = if lits.len() > max {
        max
    } else {
        lits.len()
    };
    let mut text = String::new();
    let mut i: usize = 0;
    proof {
        assert(lits@.take(0) =~= Seq::<Lit>::empty());
    }
    while i < shown
        invariant
            i <= shown,
            shown <= lits.len(),
            text@ == lits_text(lits@.take(i as int), sep@),
        decreases shown - i,
    {
        if i > 0 {
            text.append(sep);
        }
        let one = fmt_lit(lits[i]);
        text.append(one.as_str());
        i = i + 1;
        proof {
            let upto = lits@.take(i as int);
            assert(upto.drop_last() =~= lits@.take(i - 1));
            assert(upto.last() == lits@[i - 1]);
            if i == 1 {
                assert(upto[0] == lits@[0]);
                assert(text@ =~= lit_text(lits@[0]));
            } else {
                assert(text@ =~= lits_text(lits@.take(i - 1), sep@) + sep@ + lit_text(lits@[i - 1]));
            }
        }
    }
    if lits.len() > max {
        text.append(sep);
        text.append("...");
    } else {
        proof {
            assert(lits@.take(shown as int) =~= lits@);
        }
    }
    text
}

/// The text of a term handle.
pub fn fmt_term(t: TermId) -> (text: String)
    ensures
        text@ == term_text(t),
{
    let mut text = String::new();
    text.append("TermId(");
    append_decimal(&mut text, t.0 as u64);
    text.append(")");
    assert(text@ =~= term_text(t));
    text
}

} // verus!
