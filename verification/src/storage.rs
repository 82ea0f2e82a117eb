//! The storage abstraction the engine's owner persists its state through.
//!
//! The engine itself never does I/O: a provider is a port its users
//! implement, moving serialized entities in and out under byte keys.

use vstd::prelude::*;

use crate::keystore::{PersistentKeyStore, PersistentKeyStoreError};

verus! {

/// A storage backend: serialized entities in and out under byte keys.
pub trait StorageProvider {
    /// Binds a serialized entity to a key, replacing any earlier binding.
    fn store(&mut self, k: &Vec<u8>, v: &Vec<u8>) -> Result<(), PersistentKeyStoreError>;

    /// Reads the entity bound to a key, if any.
    fn read(&self, k: &Vec<u8>) -> Option<Vec<u8>>;

    /// Drops the binding of a key.
    fn delete(&mut self, k: &Vec<u8>) -> Result<(), PersistentKeyStoreError>;
}

/// A provider refined with the storage backend the engine's owner selected.
pub trait RefinedProvider {
    /// The storage to use.
    type Storage: StorageProvider;

    /// Hands out the storage backend.
    fn storage(&mut self) -> &mut Self::Storage;
}

/// An in-memory provider around the persistent key store.
pub struct MemoryProvider {
    pub store: PersistentKeyStore,
}

impl StorageProvider for PersistentKeyStore {
    fn store(&mut self, k: &Vec<u8>, v: &Vec<u8>) -> Result<(), PersistentKeyStoreError> {
        if !self.check_unique() {
            return Err(PersistentKeyStoreError::SerializationError);
        }
        PersistentKeyStore::store(self, k, v)
    }

    fn read(&self, k: &Vec<u8>) -> Option<Vec<u8>> {
        if !self.check_unique() {
            return None;
        }
        PersistentKeyStore::read(self, k)
    }

    fn delete(&mut self, k: &Vec<u8>) -> Result<(), PersistentKeyStoreError> {
        if !self.check_unique() {
            return Err(PersistentKeyStoreError::SerializationError);
        }
        PersistentKeyStore::delete(self, k)
    }
}

impl RefinedProvider for MemoryProvider {
    type Storage = PersistentKeyStore;

    fn storage(&mut self) -> &mut PersistentKeyStore {
        &mut self.store
    }
}

} // verus!
