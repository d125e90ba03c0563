//! The arena model of a concrete syntax tree: nodes held in one vector,
//! children referred to by index, every child index larger than its
//! parent's so that traversal terminates.

use vstd::prelude::*;

verus! {

/// One node of the tree: its kind label, the canonical text of its
/// source range, its source text, and the indices of its children in
/// left-to-right order.
#[derive(Debug, Clone)]
pub struct SyntaxNode {
    pub kind: String,
    pub range_text: String,
    pub text: String,
    pub children: Vec<usize>,
}

/// A concrete syntax tree as an arena; the root is the node at index 0.
#[derive(Debug, Clone)]
pub struct SyntaxTree {
    pub nodes: Vec<SyntaxNode>,
}

/// A node with no children stands for one lexical token.
pub open spec fn spec_is_token(node: SyntaxNode) -> bool {
    node.children@.len() == 0
}

/// Every child index points past its parent and into the arena, and
/// the arena is non-empty so that a root exists.
pub open spec fn well_formed(tree: SyntaxTree) -> bool {
    &&& tree.nodes@.len() > 0
    &&& forall|i: int, k: int|
        0 <= i < tree.nodes@.len() && 0 <= k < tree.nodes@[i].children@.len()
            ==> i < #[trigger] tree.nodes@[i].children@[k] < tree.nodes@.len()
}

impl SyntaxTree {
    /// Checks the arena shape at run time, for callers that assemble a
    /// tree from unverified input.
    pub fn check_well_formed(&self) -> (r: bool)
        ensures
            r == well_formed(*self),
    {
        if self.nodes.len() == 0 {
            return false;
        }
        let mut i: usize = 0;
        while i < self.nodes.len()
            invariant
                0 <= i <= self.nodes@.len(),
                forall|p: int, k: int|
                    0 <= p < i && 0 <= k < self.nodes@[p].children@.len()
                        ==> p < #[trigger] self.nodes@[p].children@[k] < self.nodes@.len(),
            decreases self.nodes@.len() - i,
        {
            let node = &self.nodes[i];
            let mut k: usize = 0;
            while k < node.children.len()
                invariant
                    0 <= k <= node.children@.len(),
                    node == self.nodes@[i as int],
                    0 <= i < self.nodes@.len(),
                    forall|j: int|
                        0 <= j < k ==> i < #[trigger] node.children@[j] < self.nodes@.len(),
                decreases node.children@.len() - k,
            {
                let c = node.children[k];
                if c <= i || c >= self.nodes.len() {
                    return false;
                }
                k = k + 1;
            }
            i = i + 1;
        }
        true
    }
}

} // verus!
