//! The data that the library hands back: nested label trees, hierarchies,
//! the summary and the whole response.
use vstd::prelude::*;

verus! {

/// A JSON object whose every value is again such an object: `{ "A": { "B": {} } }`.
/// The entries are kept in the order in which they are written out.
pub struct JsonTree {
    pub entries: Vec<(String, JsonTree)>,
}

/// One connected group of nodes: the tree below its root, or, where a cycle
/// can be reached from the root, an empty tree and `has_cycle: Some(true)`.
pub struct HierarchyObject {
    pub root: String,
    pub tree: JsonTree,
    pub depth: Option<u32>,
    pub has_cycle: Option<bool>,
}

/// The request: the raw entries.
pub struct BfhlRequest {
    pub data: Vec<String>,
}

/// Counts over the hierarchies and the root of the deepest tree.
pub struct Summary {
    pub total_trees: usize,
    pub total_cycles: usize,
    pub largest_tree_root: String,
}

/// The answer to a request.
pub struct BfhlResponse {
    pub user_id: String,
    pub email_id: String,
    pub college_roll_number: String,
    pub hierarchies: Vec<HierarchyObject>,
    pub invalid_entries: Vec<String>,
    pub duplicate_edges: Vec<String>,
    pub summary: Summary,
}

} // verus!
