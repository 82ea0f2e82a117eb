//! A ratchet-tree continuous group key agreement engine.
//!
//! The library maintains an authenticated binary tree whose leaves are group
//! members and whose parent nodes carry derived key material.  Any member can
//! refresh the whole tree's secrets in a single broadcast update that every
//! other member re-derives independently.
//!
//! The tree is an array of optional nodes addressed by the arithmetic in
//! `treemath`; `treesync` keeps the authenticated snapshot and its
//! transactional diff; `treekem` produces and consumes update paths; `codec`
//! fixes the wire form; `crypto` names the cryptographic capabilities the
//! engine consumes.

pub mod codec;
pub mod credential;
pub mod crypto;
pub mod errors;
pub mod index;
pub mod kat;
pub mod keystore;
pub mod node;
pub mod storage;
pub mod treekem;
pub mod treemath;
pub mod treesync;
