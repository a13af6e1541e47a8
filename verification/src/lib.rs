//! A capacity-bounded, keyed store for typed records.
//!
//! The vault keeps records under unique string keys, enforces a byte budget
//! derived from a declared capacity unit, and can be saved to and restored
//! from a flat text representation that reproduces its state exactly.

pub mod error;
pub mod memory;
pub mod persist;
pub mod resource;
pub mod text;
pub mod vault;

pub use error::VaultError;
pub use memory::MemorySize;
pub use resource::Resource;
pub use resource::ResourceView;
pub use vault::Vault;
pub use vault::VaultMetadata;
pub use vault::VaultSnapshot;
pub use vault::VaultSummary;
