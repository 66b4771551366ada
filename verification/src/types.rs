//! Shared plain types: error enums and example storable types.

pub mod errors;
pub mod example_types;
