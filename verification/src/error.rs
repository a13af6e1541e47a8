//! The error surface: each failure condition of the store is a distinct,
//! inspectable kind, never a bare string.

use vstd::prelude::*;
use crate::text::dec_str;
use crate::text::u64_to_string;

verus! {

/// A failure reported by the vault or its persistence adapter.
///
/// Every operation returns one of these instead of panicking: a full vault
/// reports its capacity, current usage and the rejected record's size; a
/// duplicate or missing key is reported with the key; malformed caller input
/// and persistence failures carry a message.
#[derive(Debug, Clone)]
pub enum VaultError {
    VaultFull { capacity: u64, current: u64, new_size: u64 },
    DuplicateKey(String),
    ResourceNotFound(String),
    InvalidInput(String),
    IoFailure(String),
}

impl VaultError {
    /// The characters of the human-readable description of this error.
    pub open spec fn message_spec(self) -> Seq<char> {
        match self {
            VaultError::VaultFull { capacity, current, new_size } => "Vault full! Capacity: "@
                + dec_str(capacity as nat) + " bytes, Current: "@ + dec_str(current as nat)
                + " bytes, New Resource: "@ + dec_str(new_size as nat) + " bytes"@,
            VaultError::DuplicateKey(key) => "Key '"@ + key@ + "' already exists"@,
            VaultError::ResourceNotFound(key) => "Resource '"@ + key@ + "' not found"@,
            VaultError::InvalidInput(msg) => "Input error: "@ + msg@,
            VaultError::IoFailure(msg) => "I/O error: "@ + msg@,
        }
    }

    /// A human-readable description of the error.
    pub fn message(&self) -> (msg: String)
        ensures
            msg@ == self.message_spec(),
    {
        match self {
            VaultError::VaultFull { capacity, current, new_size } => {
                let mut m = String::from_str("Vault full! Capacity: ");
                m.append(u64_to_string(*capacity).as_str());
                m.append(" bytes, Current: ");
                m.append(u64_to_string(*current).as_str());
                m.append(" bytes, New Resource: ");
                m.append(u64_to_string(*new_size).as_str());
                m.append(" bytes");
                m
            },
            VaultError::DuplicateKey(key) => {
                let mut m = String::from_str("Key '");
                m.append(key.as_str());
                m.append("' already exists");
                m
            },
            VaultError::ResourceNotFound(key) => {
                let mut m = String::from_str("Resource '");
                m.append(key.as_str());
                m.append("' not found");
                m
            },
            VaultError::InvalidInput(msg) => {
                let mut m = String::from_str("Input error: ");
                m.append(msg.as_str());
                m
            },
            VaultError::IoFailure(msg) => {
                let mut m = String::from_str("I/O error: ");
                m.append(msg.as_str());
                m
            },
        }
    }
}

} // verus!
