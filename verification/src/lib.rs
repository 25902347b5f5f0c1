//! User-space keyring management: resolution of special keyring identities,
//! breadth-first search across the keyring link graph, link/unlink graph
//! mutation with cycle and nesting-depth rules, and the fixed-width binary
//! link-listing protocol.
//!
//! The kernel's keyring state is carried as an explicit [`state::KernelState`]
//! value, so every graph operation is an ordinary function whose behaviour is
//! stated in its contract and checked by the verifier. The raw syscall binding
//! that drives a live kernel lives outside this library.

pub mod codec;
pub mod error;
pub mod id;
pub mod key;
pub mod keyring;
pub mod laws;
pub mod links;
pub mod state;

pub use error::KeyError;
pub use id::{KeyRingIdentifier, KeySerialId};
pub use key::{Key, KeyType, Metadata};
pub use keyring::KeyRing;
pub use links::{LinkNode, Links};
pub use state::{KernelState, Permissions};
