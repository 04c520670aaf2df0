//! A small local vault for credential records and free-text notes.
//!
//! The vault keeps two ordered collections (credentials and notes) together
//! with inert metadata (`salt`, `nonce`, `encrypted`, a version stamp).
//! It offers insertion, lookup and removal by identifier, a favorite-first
//! sort, and a lossless textual document encoding for persistence.

pub mod codec;
pub mod doc;
pub mod order;
pub mod records;
pub mod sorting;
pub mod vault;

pub use records::Credential;
pub use records::Note;
pub use vault::Vault;
pub use vault::VaultError;
