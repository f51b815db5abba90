//! The texts of a debug bundle: the name of its directory and its index
//! file. Writing the bundle is left to the caller.

use crate::reason::ReasonId;
use crate::text::{append_decimal, decimal};
use vstd::prelude::*;
use vstd::string::StringExecFns;

verus! {

/// The name of the directory of a bundle: the process and the round.
pub open spec fn bundle_dir_text(pid: u32, epoch: u64) -> Seq<char> {
    "smt-debug-"@ + decimal(pid as nat) + "-"@ + decimal(epoch as nat)
}

/// The index file of a bundle.
pub open spec fn bundle_readme_text(conflict_reason: ReasonId) -> Seq<char> {
    "SMT UNSAT DEBUG BUNDLE\n"@ + "\n"@ + "Files:\n"@
        + "  - eqshare.dot   : equality-sharing exchanges (terms + edges with direction/epoch)\n"@
        + "  - conflict.dot  : reason DAG for the reported conflict reason\n"@ + "\n"@
        + "Render to SVG:\n"@ + "  dot -Tsvg eqshare.dot  > eqshare.svg\n"@
        + "  dot -Tsvg conflict.dot > conflict.svg\n"@ + "\n"@ + "Conflict root ReasonId: "@ + decimal(
        conflict_reason.0 as nat,
    ) + "\n"@
}

/// The name of the directory of a bundle.
pub fn bundle_dir_name(pid: u32, epoch: u64) -> (name: String)
    ensures
        name@ == bundle_dir_text(pid, epoch),
{
    let mut name = String::new();
    name.append("smt-debug-");
    append_decimal(&mut name, pid as u64);
    name.append("-");
    append_decimal(&mut name, epoch);
    assert(name@ =~= bundle_dir_text(pid, epoch));
    name
}

/// The index file of a bundle: what its files hold, how to render them, and
/// the root of the conflict.
pub fn bundle_readme(conflict_reason: ReasonId) -> (text: String)
    ensures
        text@ == bundle_readme_text(conflict_reason),
{
    let mut text = String::new();
    text.append("SMT UNSAT DEBUG BUNDLE\n");
    text.append("\n");
    text.append("Files:\n");
    text.append(
        "  - eqshare.dot   : equality-sharing exchanges (terms + edges with direction/epoch)\n",
    );
    text.append("  - conflict.dot  : reason DAG for the reported conflict reason\n");
    text.append("\n");
    text.append("Render to SVG:\n");
    text.append("  dot -Tsvg eqshare.dot  > eqshare.svg\n");
    text.append("  dot -Tsvg conflict.dot > conflict.svg\n");
    text.append("\n");
    text.append("Conflict root ReasonId: ");
    append_decimal(&mut text, conflict_reason.0 as u64);
    text.append("\n");
    assert(text@ =~= bundle_readme_text(conflict_reason));
    text
}

} // verus!
