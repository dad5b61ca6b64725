//! A per-account nickname registry.
//!
//! Each account may hold up to three nicknames, each at most 32 bytes long,
//! and every nickname is unique across the whole registry. Three operations
//! change the state: set (append a nickname), update (replace one in place)
//! and clear (remove one, shifting later entries down). Every operation is
//! all-or-nothing: a failed call leaves the registry untouched.

mod model;
mod registry;
mod laws;

pub use model::{
    AccountId, Error, Event, MAX_NICKNAMES, MAX_NICKNAME_LEN, capacity_ok, clear_result,
    globally_unique, lengths_ok, list_of, nickname_taken, registry_invariant, set_result,
    update_result,
};
pub use registry::Registry;
pub use laws::{lemma_capacity, lemma_clear_preserves_order, lemma_nickname_unique};
