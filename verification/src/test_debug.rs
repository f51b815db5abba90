//! The administrative switch of the equality-sharing diagnostics.
//!
//! The switch is a plain operation on a configuration: a harness that wants
//! to run an instance again with diagnostics builds a second engine and
//! switches its configuration on.

use crate::config::{DebugEqSharing, EngineConfig};
use vstd::prelude::*;

verus! {

/// The diagnostic switches after the administrative switch was set to
/// `enabled`: switched on, diagnostics show up to sixteen literals of a
/// justification; switched off, the number stays as it is. The other
/// switches stay.
pub open spec fn switched(debug: DebugEqSharing, enabled: bool) -> DebugEqSharing {
    DebugEqSharing {
        enabled,
        max_reason_lits: if enabled {
            16
        } else {
            debug.max_reason_lits
        },
        ..debug
    }
}

/// Switches the diagnostics of a configuration on or off. Switching twice
/// to the same side is the same as switching once.
pub fn set_eqshare_debug_enabled(config: &mut EngineConfig, enabled: bool)
    ensures
        final(config).sharing == old(config).sharing,
        final(config).debug_eq == switched(old(config).debug_eq, enabled),
{
    config.debug_eq.enabled = enabled;
    if enabled {
        config.debug_eq.max_reason_lits = 16;
    }
}

/// Whether the diagnostics of a configuration are switched on.
pub fn eqshare_debug_enabled(config: &EngineConfig) -> (enabled: bool)
    ensures
        enabled == config.debug_eq.enabled,
{
    config.debug_eq.enabled
}

/// Setting the switch twice to the same side is the same as setting it
/// once, and the last setting decides whether diagnostics are on.
pub proof fn lemma_switch_idempotent(debug: DebugEqSharing, first: bool, second: bool)
    ensures
        switched(switched(debug, first), first) == switched(debug, first),
        switched(switched(debug, first), second).enabled == second,
{
}

} // verus!
