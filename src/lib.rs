//! A registry of soul-bound tokens issued by registered issuers, with a
//! resumable transfer of a whole account's tokens to another account.

pub mod cursor;
pub mod laws;
pub mod mint;
pub mod owner_index;
pub mod query;
pub mod registry;
pub mod transfer;
pub mod types;

pub use registry::Contract;
pub use types::{AccountId, ClassId, CtrId, OwnedToken, RegistryError, Token, TokenId, TokenMetadata};
