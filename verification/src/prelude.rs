//! Everything that is likely needed while working with an [`Account`].

pub use crate::account::settings_map::SettingsMap;
pub use crate::account::{Account, Incrementable, Valid};
pub use crate::stg::{Setting, Stg, StgTrait};
pub use crate::types::errors::{DeepError, GetError, InvalidAccountError, StgError};
pub use crate::types::example_types::{BoolStg, I32Stg};
