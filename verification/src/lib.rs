//! A layered-settings library.
//!
//! An [`Account`] is a tree node holding a map of settings together with an
//! ordered sequence of child accounts.  Each account keeps an aggregated,
//! pre-resolved view of the settings reachable from its active children:
//! reading a setting is a single map lookup, and the structural operations
//! (`push`, `pop`, the `deep_*` family) maintain that aggregate incrementally.
//!
//! Settings of distinct types are stored in one map through the [`Stg`]
//! value cell, a tagged union over a fixed set of storable types, each of
//! which implements the [`Setting`](crate::stg::Setting) trait.

pub mod account;
pub mod prelude;
pub mod stg;
pub mod types;

pub use crate::account::Account;
pub use crate::stg::Stg;
