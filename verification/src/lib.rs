//! Resolution of host-provided capabilities ("bindings") against the ordered
//! import declarations of a compiled WebAssembly module.
//!
//! Capability providers (a GPU-acceleration environment and an optional
//! POSIX-like system-call environment) each offer a set of
//! `(namespace, name) -> binding` pairs.  The providers are merged, in a
//! fixed documented order, into a single keyed table in which a later
//! provider's binding shadows an earlier one.  A module's ordered import
//! declarations are then resolved against that table, producing either an
//! output sequence aligned index-for-index with the declarations, or a
//! single failure naming the first import that could not be satisfied.

pub mod binding;
pub mod resolver;
pub mod table;
