//! A durable record store for short text documents ("pastes").
//!
//! The store keeps every record in one flat byte array: a header with a
//! magic tag and the id counter, followed by one fixed-size slot per id that
//! was ever minted. All of the store's state lives in those bytes, so a store
//! rebuilt from them answers every query exactly as before.
pub mod byte_store;
pub mod error;
pub mod laws;
pub mod layout;
pub mod record;
pub mod service;

pub use byte_store::ByteStore;
pub use error::PasteError;
pub use record::{Paste, MAX_RECORD_LEN};
pub use service::PasteStore;
