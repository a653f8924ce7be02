//! Identity and integrity model for versioned objects and the transactions
//! that reference them.
//!
//! Every identifier is a [`Digest`]: the first 32 bytes of the SHA-512 hash of
//! an entity's canonical byte encoding.

pub mod digest;
pub mod object;
pub mod transaction;
pub mod wire;

pub use digest::{Digest, Digestible};
pub use object::{Object, ObjectVersion};
pub use transaction::Transaction;
