//! The key-value interface that the engine offers to the tree-assembly and
//! orchestration layer built around it. That layer owns the backing files and
//! the multi-page traversal, so the implementations live with it; the
//! single-page algorithms they build on are `LeafPage`'s.

use crate::MiniBaseResult;
use vstd::prelude::*;

verus! {

/// Point operations over the store, keyed and valued by strings.
pub trait Operate {
    fn put(&self, key: &str, value: &str) -> MiniBaseResult<()>;

    fn get(&self, key: &str) -> MiniBaseResult<Option<String>>;

    fn scan(&self, begin: &str, end: &str) -> MiniBaseResult<Vec<String>>;

    fn remove(&self, key: &str) -> MiniBaseResult<bool>;
}

} // verus!
