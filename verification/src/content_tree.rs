//! The content tree: a parsed document of elements and text.

use vstd::prelude::*;

verus! {

broadcast use {
    vstd::std_specs::vec::axiom_vec_decreases_to_view,
    vstd::seq::axiom_seq_subrange_decreases,
    vstd::seq::axiom_seq_index_decreases,
};

/// What an element offers to selectors: its tag, its identifier if it has
/// one, and the classes it belongs to.
#[derive(Debug, PartialEq, Eq)]
pub struct ElementData {
    pub tag_name: String,
    pub id: Option<String>,
    pub classes: Vec<String>,
}

impl ElementData {
    /// The element belongs to the class `class`.
    pub open spec fn has_class(self, class: Seq<char>) -> bool {
        exists|k: int| 0 <= k < self.classes@.len() && (#[trigger] self.classes@[k])@ == class
    }

    /// Tests whether the element belongs to `class`.
    pub fn in_class(&self, class: &String) -> (found: bool)
        ensures
            found == self.has_class(class@),
    {
        let mut k: usize = 0;
        while k < self.classes.len()
            invariant
                k <= self.classes.len(),
                forall|earlier: int|
                    0 <= earlier < k ==> (#[trigger] self.classes@[earlier])@ != class@,
            decreases self.classes.len() - k,
        {
            if self.classes[k] == *class {
                return true;
            }
            k += 1;
        }
        false
    }
}

/// A node of a parsed document: an element with its children in document
/// order, or a run of text, which has no children.
#[derive(Debug, PartialEq, Eq)]
pub enum Node {
    Element { element: ElementData, children: Vec<Node> },
    Text(String),
}

impl Node {
    /// The children of a node, in document order; a text node has none.
    pub open spec fn children(self) -> Seq<Node> {
        match self {
            Node::Element { children, .. } => children@,
            Node::Text(_) => Seq::empty(),
        }
    }

    /// The number of nodes of the tree under this node, the node included.
    pub open spec fn size(self) -> nat
        decreases self,
    {
        match self {
            Node::Element { children, .. } => 1 + Self::total_size(children@),
            Node::Text(_) => 1,
        }
    }

    /// The number of nodes of the trees under `nodes`.
    pub open spec fn total_size(nodes: Seq<Node>) -> nat
        decreases nodes,
    {
        if nodes.len() == 0 {
            0
        } else {
            Self::total_size(nodes.drop_last()) + nodes.last().size()
        }
    }
}

} // verus!
