//! An in-memory ordered associative map implemented as a B-tree of minimum
//! degree `t >= 2`, mapping `u64` keys to values of an arbitrary type `V`.
//!
//! The tree keeps every node between `t - 1` (non-root) and `2t - 1` keys,
//! splits full children preemptively on the way down during insertion, and
//! grows only at the root, so all leaves stay at the same depth.
//!
//! Duplicate-key policy: `insert` overwrites the value bound to an existing
//! key in place, so the map behaves exactly like `vstd`'s mathematical
//! `Map::insert`.

pub mod laws;
pub mod map;
pub mod node;
