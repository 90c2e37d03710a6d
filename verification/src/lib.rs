//! A minimal namespaced key-value storage library.
//!
//! Values are stored in a flat string-to-string store. A write derives the
//! storage key for a plaintext by hashing an application namespace together
//! with the plaintext (Keccak-256, rendered as lowercase hexadecimal), so the
//! caller learns the key from the returned item instead of recomputing the
//! hash. Reads, updates and deletes address the store by an explicit key.

pub mod accessor;
pub mod keys;
pub mod store;

pub use accessor::{clear_storage, delete_string, get_string, set_string, update_string};
pub use accessor::{Item, StorageError};
pub use keys::derive_key;
pub use store::Store;
