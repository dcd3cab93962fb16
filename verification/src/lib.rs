//! Verified in-memory index structures: a probabilistic ordered index (skip
//! list) over integer values with positional identifiers, together with a
//! family of smaller ordered containers and numeric helpers.

pub mod avl;
pub mod bst;
pub mod edit_distance;
pub mod fenwick;
pub mod graph;
pub mod skiplist;
pub mod treap;
pub mod util;

use vstd::prelude::*;

verus! {

/// Marker for the key types a hashed container could be addressed by:
/// hashable totally ordered plain values.
pub trait HashKeyTrait {

}

/// Marker for the payload types the ordered containers are meant for:
/// totally ordered plain values.
pub trait MyTrait {

}

impl HashKeyTrait for i8 {

}

impl HashKeyTrait for i16 {

}

impl HashKeyTrait for i32 {

}

impl HashKeyTrait for i64 {

}

impl HashKeyTrait for isize {

}

impl HashKeyTrait for u8 {

}

impl HashKeyTrait for u16 {

}

impl HashKeyTrait for u32 {

}

impl HashKeyTrait for u64 {

}

impl HashKeyTrait for usize {

}

impl MyTrait for i8 {

}

impl MyTrait for i16 {

}

impl MyTrait for i32 {

}

impl MyTrait for i64 {

}

impl MyTrait for isize {

}

impl MyTrait for u8 {

}

impl MyTrait for u16 {

}

impl MyTrait for u32 {

}

impl MyTrait for u64 {

}

impl MyTrait for usize {

}

} // verus!
