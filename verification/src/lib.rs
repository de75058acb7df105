//! A dynamic query engine over an entity store: queries whose field accesses
//! and filters are provided as run-time data are constructed with explicit
//! aliasing checks, matched incrementally against the store's compositions,
//! and iterated with change-tracking semantics.
//!
//! - [`world`] models the store: field registry, archetypes, per-archetype
//!   tables, per-field sparse sets, entities and change-tick counters.
//! - [`tick`] holds the wrapping change-tick arithmetic.
//! - [`bits`] is the trusted surface over the bit-set crate used for match
//!   sets and access masks; [`access`] builds the masks on top of it.
//! - [`dynamic_query`] is the engine: descriptors, construction with
//!   aliasing checks, the incrementally maintained match set, and the
//!   iteration entry points.
//! - [`query_iter`] carries the iteration machinery and its specification:
//!   the yielded sequence and the store's tick state after a pass.
//! - [`laws`] states and proves the engine's global guarantees.
//! - [`asset`] holds the plain-value record of a loaded script.

pub mod access;
pub mod asset;
pub mod bits;
pub mod dynamic_query;
pub mod laws;
pub mod query_iter;
pub mod tick;
pub mod world;
