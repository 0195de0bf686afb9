//! Reconciliation of per-host block-device reports into one global device
//! graph.
//!
//! - `model`: devices, device-host rows, their views and the predicates the
//!   contracts are written with.
//! - `graph`: lookups and the ancestor check.
//! - `depth`: recomputing depths, and detecting dangling parents and cycles.
//! - `visibility`: which devices a host can see through shared ancestors.
//! - `merge`: folding one host's report into the persisted state.
//! - `reconcile`: one full reconciliation pass.
//! - `changes`: the device-host pairs whose visibility a pass changed.
//! - `narrowing`, `reapply`: laws of a pass (idempotence, order).
//! - `page`: which dashboard page a route designates.
use vstd::prelude::*;

pub mod model;
pub mod graph;
pub mod depth;
pub mod visibility;
pub mod merge;
pub mod reconcile;
pub mod changes;
pub mod narrowing;
pub mod reapply;
pub mod order;
pub mod page;
