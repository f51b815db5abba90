//! Theory-combination core of an SMT engine: explanation store, theory
//! interface, shared-term oracle and the equality-sharing round.

pub mod atoms;
pub mod config;
pub mod count;
pub mod engine;
pub mod eqshare_dot;
pub mod eqshare_log;
pub mod eqshare_query;
pub mod eqshare_trace;
pub mod harness;
pub mod reason;
pub mod reason_dot;
pub mod sat;
pub mod session;
pub mod shared_terms;
pub mod sharing;
pub mod tables;
pub mod term;
pub mod test_debug;
pub mod text;
pub mod theory;
pub mod theory_ctx;
pub mod unsat_bundle;
