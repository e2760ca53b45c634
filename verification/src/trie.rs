//! The frame of a prefix tree: a root node and nothing stored yet.

use std::collections::HashMap;
use vstd::prelude::*;

verus! {

/// A node: the edges that leave it, by label, and whether a word ends here.
pub struct TrieNode {
    children: HashMap<String, String>,
    is_end: bool,
}

/// A prefix tree.
pub struct Trie {
    root: TrieNode,
}

impl Trie {
    /// The edges that leave the root.
    pub closed spec fn root_children(&self) -> Map<String, String> {
        self.root.children@
    }

    /// Whether a word ends at the root.
    pub closed spec fn root_is_end(&self) -> bool {
        self.root.is_end
    }

    /// A tree that holds its root alone, with no edge and no word.
    pub fn new() -> (t: Self)
        ensures
            t.root_children() == Map::<String, String>::empty(),
            !t.root_is_end(),
    {
        Self { root: TrieNode { children: HashMap::new(), is_end: false } }
    }

    /// Leaves the tree as it is.
    pub fn insert(&self) {
    }

    /// Does nothing.
    pub fn search() {
    }
}

} // verus!
