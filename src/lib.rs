//! The cell subsystem of a recursive systems daemon: validated hierarchical
//! cell names, cell specifications, the allocation state machine of a cell,
//! the per-level cell cache and the teardown protocol that drains a subtree
//! bottom-up.
//!
//! Kernel work (spawning nested daemons, cgroupfs writes, signals) is done by
//! the caller; the library decides what is to be done and records the outcome.
use vstd::prelude::*;

pub mod validation;
pub mod name;
pub mod error;
pub mod spec;
pub mod cell;
pub mod teardown;
pub mod runtime;
pub mod executable;
pub mod cgroup_cache;
