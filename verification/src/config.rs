//! Engine configuration: the sharing policy and the diagnostic switches.

use vstd::prelude::*;

verus! {

/// Which directions of equality exchange between the two built-in theories
/// are open. Every other pair of theories may always exchange.
#[derive(Debug, Clone, Copy)]
pub struct SharingConfig {
    pub uf_to_dl: bool,
    pub dl_to_uf: bool,
}

impl Default for SharingConfig {
    fn default() -> (c: Self)
        ensures
            c == (SharingConfig { uf_to_dl: true, dl_to_uf: true }),
    {
        Self { uf_to_dl: true, dl_to_uf: true }
    }
}

/// Switches of the equality-sharing diagnostics.
#[derive(Debug, Clone, Copy)]
pub struct DebugEqSharing {
    pub enabled: bool,
    pub max_reason_lits: usize,
    pub log_imports: bool,
    pub log_exports: bool,
    pub log_shared_stats: bool,
}

impl DebugEqSharing {
    /// The switches of an engine that nobody has configured: diagnostics
    /// are off; once switched on they report everything, with up to eight
    /// literals of a justification.
    pub open spec fn default_value() -> DebugEqSharing {
        DebugEqSharing {
            enabled: false,
            max_reason_lits: 8,
            log_imports: true,
            log_exports: true,
            log_shared_stats: true,
        }
    }
}

impl Default for DebugEqSharing {
    fn default() -> (d: Self)
        ensures
            d == DebugEqSharing::default_value(),
    {
        Self {
            enabled: false,
            max_reason_lits: 8,
            log_imports: true,
            log_exports: true,
            log_shared_stats: true,
        }
    }
}

/// The configuration of one engine.
#[derive(Debug, Clone, Copy)]
pub struct EngineConfig {
    pub sharing: SharingConfig,
    pub debug_eq: DebugEqSharing,
}

impl EngineConfig {
    /// The configuration of an engine that nobody has configured: every
    /// direction is open and diagnostics are off.
    pub open spec fn default_value() -> EngineConfig {
        EngineConfig {
            sharing: SharingConfig { uf_to_dl: true, dl_to_uf: true },
            debug_eq: DebugEqSharing::default_value(),
        }
    }
}

impl Default for EngineConfig {
    fn default() -> (c: Self)
        ensures
            c == EngineConfig::default_value(),
    {
        Self { sharing: SharingConfig::default(), debug_eq: DebugEqSharing::default() }
    }
}

} // verus!
