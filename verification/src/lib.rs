//! A local trust store for long-lived public-key identities.
//!
//! Keys are remembered under caller-chosen labels, deduplicated by
//! fingerprint in a shared pool, and updated under a conflict-resolution
//! protocol that never lets an unrelated key silently replace a bound one.
//!
//! - `context`: the configuration of a process, network policies, errors.
//! - `tpk`: keys as the store sees them, and how two of them merge.
//! - `stats`: usage counters and timestamps.
//! - `log`: the append-only audit log.
//! - `pool`: the pool of keys, one per fingerprint.
//! - `namespace`: stores and bindings, and what makes them well formed.
//! - `service`: the state of the trust store and its operations.
//! - `protocol`: what the operations do, and the laws of the import protocol.
//! - `refresh`: what a background refresh may do under a network policy.
//! - `record`: flat records of statistics and log entries.
//! - `packet`, `one_pass_sig`, `skesk`: the OpenPGP packets of this library.

pub mod context;
pub mod log;
pub mod namespace;
pub mod one_pass_sig;
pub mod packet;
pub mod pool;
pub mod protocol;
pub mod record;
pub mod refresh;
pub mod service;
pub mod skesk;
pub mod stats;
pub mod tpk;
