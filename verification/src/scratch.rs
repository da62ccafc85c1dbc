//! The scratch space: the operations a buffer has staged, by key.
use crate::keymap::KeyMap;
use vstd::prelude::*;

verus! {

/// An operation staged for one key.
#[derive(Debug, Clone, PartialEq)]
pub enum KvOp<V> {
    /// Add or replace the value under the key.
    Put(Box<V>),
    /// Remove the key.
    Delete,
}

/// The staged operations, one per key at most, in ascending key order.
pub type Scratch<V> = KeyMap<KvOp<V>>;

} // verus!
