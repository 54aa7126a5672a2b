//! The failures that the registry and the engine report.

use crate::key::SpawnKey;
use crate::model::Fault;
use crate::store::EntityId;
use vstd::prelude::*;

verus! {

/// Why an operation was refused. Each of these is a configuration mistake;
/// an operation that reports one has changed nothing.
#[derive(Debug)]
pub enum SpawnError {
    /// A prototype is already registered under this key.
    DuplicateKey(SpawnKey),
    /// No prototype is registered under this key.
    InvalidKey(SpawnKey),
    /// The store holds as many entities as a handle can address.
    StoreFull,
    /// A deferred command names an entity that the store does not hold.
    MissingEntity(EntityId),
}

impl View for SpawnError {
    type V = Fault;

    open spec fn view(&self) -> Fault {
        match self {
            SpawnError::DuplicateKey(key) => Fault::DuplicateKey(key@),
            SpawnError::InvalidKey(key) => Fault::InvalidKey(key@),
            SpawnError::StoreFull => Fault::StoreFull,
            SpawnError::MissingEntity(entity) => Fault::MissingEntity(entity@),
        }
    }
}

impl SpawnError {
    /// The key that the failure is about, if it is about one.
    pub fn key(&self) -> (key: Option<&SpawnKey>)
        ensures
            match *self {
                SpawnError::DuplicateKey(k) => key == Some(&k),
                SpawnError::InvalidKey(k) => key == Some(&k),
                SpawnError::StoreFull => key is None,
                SpawnError::MissingEntity(_) => key is None,
            },
    {
        match self {
            SpawnError::DuplicateKey(key) => Some(key),
            SpawnError::InvalidKey(key) => Some(key),
            SpawnError::StoreFull => None,
            SpawnError::MissingEntity(_) => None,
        }
    }
}

} // verus!
