//! Index types for the array-based binary tree.
//!
//! The tree is stored as a flat array: even positions are leaves, odd
//! positions are parent nodes.  A tree with `n` leaves occupies `2n - 1`
//! slots.

use vstd::prelude::*;

verus! {

/// NodeIndex is an index to the nodes of a tree, both parent and leaf nodes.
#[derive(Debug, Clone, Copy, PartialEq, Eq, Structural, PartialOrd, Ord, Hash)]
pub struct NodeIndex(pub u32);

impl NodeIndex {
    /// Wraps a raw array position.
    pub fn new(i: u32) -> (r: NodeIndex)
        ensures
            r.0 == i,
    {
        NodeIndex(i)
    }

    pub fn as_u32(self) -> (r: u32)
        ensures
            r == self.0,
    {
        self.0
    }

    pub fn as_usize(self) -> (r: usize)
        ensures
            r == self.0 as usize,
    {
        self.0 as usize
    }

    /// Even array positions hold leaves.
    pub fn is_leaf(&self) -> (r: bool)
        ensures
            r == (self.0 % 2 == 0),
    {
        self.0 % 2 == 0
    }

    /// Odd array positions hold parent nodes.
    pub fn is_parent(&self) -> (r: bool)
        ensures
            r == (self.0 % 2 == 1),
    {
        self.0 % 2 == 1
    }
}

/// LeafIndex is an index to the leaves of a tree.
#[derive(Debug, Clone, Copy, PartialEq, Eq, Structural, PartialOrd, Ord, Hash)]
pub struct LeafIndex(pub u32);

impl LeafIndex {
    /// Wraps a leaf number.
    pub fn new(i: u32) -> (r: LeafIndex)
        ensures
            r.0 == i,
    {
        LeafIndex(i)
    }

    pub fn as_u32(self) -> (r: u32)
        ensures
            r == self.0,
    {
        self.0
    }

    pub fn as_usize(self) -> (r: usize)
        ensures
            r == self.0 as usize,
    {
        self.0 as usize
    }

    /// The array position of this leaf: leaves sit at the even positions.
    pub fn to_node_index(self) -> (r: NodeIndex)
        requires
            self.0 <= u32::MAX / 2,
        ensures
            r.0 == self.0 * 2,
    {
        NodeIndex(self.0 * 2)
    }

    /// A node with an odd index is a parent node and has no leaf number;
    /// the conversion fails on it.
    pub fn try_from(node_index: NodeIndex) -> (r: Result<LeafIndex, &'static str>)
        ensures
            node_index.0 % 2 == 0 ==> (r matches Ok(l) && l.0 == node_index.0 / 2),
            node_index.0 % 2 == 1 ==> (r matches Err(_)),
    {
        if node_index.is_parent() {
            Err("Cannot convert a parent node index to a leaf node index.")
        } else {
            Ok(LeafIndex((node_index.as_u32() + 1) / 2))
        }
    }
}

} // verus!
