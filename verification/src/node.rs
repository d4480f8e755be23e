use vstd::prelude::*;

verus! {

/// One tree node: a key-value pair plus two optional child slot indices.
///
/// A node never stores a parent index; operations that need the parent
/// reconstruct it from the search path.
pub struct Node<V> {
    pub key: u64,
    pub val: V,
    pub left: Option<usize>,
    pub right: Option<usize>,
}

/// Result of a by-key lookup: the found node's slot, its parent's slot, and
/// whether the found node is its parent's right child.
pub struct NodeGetHelper {
    pub node_idx: Option<usize>,
    pub parent_idx: Option<usize>,
    pub is_right_child: bool,
}

} // verus!
