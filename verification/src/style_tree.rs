//! The styled tree: a content tree with the resolved properties of each
//! node.

use vstd::prelude::*;
use vstd::hash_map::StringHashMap;
use crate::cascade::{cascade, lemma_nothing_matched, resolve_matched, PropertyMap};
use crate::content_tree::{ElementData, Node};
use crate::style::{lemma_matching_none, Stylesheet, Value};
use crate::text::same_text;

verus! {

broadcast use {
    vstd::std_specs::vec::axiom_vec_decreases_to_view,
    vstd::std_specs::vec::axiom_vec_index_decreases,
    vstd::seq::axiom_seq_subrange_decreases,
    vstd::seq::axiom_seq_index_decreases,
};

/// A content node with its resolved properties and its styled children.
///
/// The styled node refers to its content node and does not own it.
pub struct StyledNode<'a> {
    node: &'a Node,
    specified_values: PropertyMap,
    children: Vec<StyledNode<'a>>,
}

/// A styled tree as a mathematical value: the content node that a styled
/// node stands for, its resolved properties and its styled children.
pub struct StyledTree {
    pub node: Node,
    pub values: Map<Seq<char>, Value>,
    pub children: Seq<StyledTree>,
}

/// How a node takes part in layout: not at all (`Hidden`, the keyword
/// `none`), within a line (`Inline`) or as a block (`Block`).
#[derive(Debug, Clone, Copy, PartialEq, Eq)]
pub enum Display {
    Hidden,
    Inline,
    Block,
}

impl<'a> StyledNode<'a> {
    /// The node with what stands below it, as a mathematical value.
    spec fn tree(&self) -> StyledTree
        decreases self,
    {
        StyledTree {
            node: *self.node,
            values: self.specified_values@,
            children: Seq::new(
                self.children@.len(),
                |i: int|
                    if 0 <= i < self.children@.len() {
                        self.children@[i].tree()
                    } else {
                        arbitrary()
                    },
            ),
        }
    }
}

impl<'a> View for StyledNode<'a> {
    type V = StyledTree;

    closed spec fn view(&self) -> StyledTree {
        self.tree()
    }
}

impl StyledTree {
    /// The tree follows the content tree under `node` node for node: it
    /// stands for `node`, and its children follow the children of `node`,
    /// as many as there are and in their order.
    pub open spec fn mirrors(self, node: Node) -> bool
        decreases self,
    {
        &&& self.node == node
        &&& self.children.len() == node.children().len()
        &&& forall|i: int|
            0 <= i < self.children.len() ==> (#[trigger] self.children[i]).mirrors(
                node.children()[i],
            )
    }

    /// The number of nodes of the tree, its root included.
    pub open spec fn size(self) -> nat
        decreases self,
    {
        1 + Self::total_size(self.children)
    }

    /// The number of nodes of `trees`.
    pub open spec fn total_size(trees: Seq<StyledTree>) -> nat
        decreases trees,
    {
        if trees.len() == 0 {
            0
        } else {
            Self::total_size(trees.drop_last()) + trees.last().size()
        }
    }
}

/// The styled tree of the content tree under `node`: an element has the
/// properties that the rules matching it resolve to, and its children
/// styled in their order; a text node has no property and no child.
pub open spec fn styled(node: Node, style: Stylesheet) -> StyledTree
    decreases node,
{
    match node {
        Node::Element { element, children } => StyledTree {
            node,
            values: cascade(style.matching(element)),
            children: Seq::new(
                children@.len(),
                |i: int|
                    if 0 <= i < children@.len() {
                        styled(children@[i], style)
                    } else {
                        arbitrary()
                    },
            ),
        },
        Node::Text(_) => StyledTree { node, values: Map::empty(), children: Seq::empty() },
    }
}

/// The display mode that resolved properties give: `Block` for the keyword
/// `block`, `Hidden` for the keyword `none`, `Inline` for any other value of
/// `display` and where `display` is not set.
pub open spec fn display_of(values: Map<Seq<char>, Value>) -> Display {
    if values.contains_key("display"@) {
        match values["display"@] {
            Value::Keyword(word) => if word@ == "block"@ {
                Display::Block
            } else if word@ == "none"@ {
                Display::Hidden
            } else {
                Display::Inline
            },
            _ => Display::Inline,
        }
    } else {
        Display::Inline
    }
}

/// The value of `keyword` where it is set, else that of `shorthand` where
/// that is set, else `default`.
pub open spec fn lookup_in(
    values: Map<Seq<char>, Value>,
    keyword: Seq<char>,
    shorthand: Seq<char>,
    default: Value,
) -> Value {
    if values.contains_key(keyword) {
        values[keyword]
    } else if values.contains_key(shorthand) {
        values[shorthand]
    } else {
        default
    }
}

/// Resolves the properties of `element` under `stylesheet`: the rules that
/// apply to the element are collected and resolved.
pub fn specified_values(element: &ElementData, stylesheet: &Stylesheet) -> (values: PropertyMap)
    ensures
        values@ == cascade(stylesheet.matching(*element)),
{
    resolve_matched(stylesheet.matching_rules(element))
}

/// Builds the styled tree of the content tree under `root_node`.
pub fn style_tree<'a>(root_node: &'a Node, style: &'a Stylesheet) -> (styled_node: StyledNode<'a>)
    ensures
        styled_node@ == styled(*root_node, *style),
        styled_node@.mirrors(*root_node),
        styled_node@.size() == root_node.size(),
        *root_node is Text ==> styled_node@.values == Map::<Seq<char>, Value>::empty()
            && styled_node@.children.len() == 0,
    decreases root_node,
{
    proof {
        lemma_styled_mirrors(*root_node, *style);
        lemma_mirror_has_as_many_nodes(styled(*root_node, *style), *root_node);
    }
    match root_node {
        Node::Element { element, children } => {
            let specified = specified_values(element, style);
            let mut built: Vec<StyledNode<'a>> = Vec::new();
            let mut i: usize = 0;
            while i < children.len()
                invariant
                    *root_node == (Node::Element { element: *element, children: *children }),
                    i <= children.len(),
                    built@.len() == i,
                    forall|k: int|
                        0 <= k < i ==> (#[trigger] built@[k])@ == styled(children@[k], *style),
                decreases children.len() - i,
            {
                assert(decreases_to!(root_node => root_node->children));
                built.push(style_tree(&children[i], style));
                i += 1;
            }
            let styled_node = StyledNode {
                node: root_node,
                specified_values: specified,
                children: built,
            };
            assert(styled_node@.children =~= styled(*root_node, *style).children);
            styled_node
        },
        Node::Text(_) => {
            let styled_node = StyledNode {
                node: root_node,
                specified_values: StringHashMap::new(),
                children: Vec::new(),
            };
            assert(styled_node@.children =~= styled(*root_node, *style).children);
            styled_node
        },
    }
}

impl<'a> StyledNode<'a> {
    /// The content node that this styled node stands for.
    pub fn node(&self) -> (node: &'a Node)
        ensures
            *node == self@.node,
    {
        self.node
    }

    /// The styled children, in the order of the content tree.
    pub fn children(&self) -> (children: &Vec<StyledNode<'a>>)
        ensures
            children@.len() == self@.children.len(),
            forall|i: int|
                0 <= i < children@.len() ==> (#[trigger] children@[i])@ == self@.children[i],
    {
        &self.children
    }

    /// The display mode of the node.
    pub fn display(&self) -> (mode: Display)
        ensures
            mode == display_of(self@.values),
    {
        match self.specified_values.get("display") {
            Some(Value::Keyword(word)) => {
                if same_text(word.as_str(), "block") {
                    Display::Block
                } else if same_text(word.as_str(), "none") {
                    Display::Hidden
                } else {
                    Display::Inline
                }
            },
            _ => Display::Inline,
        }
    }

    /// The resolved value of the property `keyword`, if it is set.
    pub fn value(&self, keyword: &str) -> (found: Option<Value>)
        ensures
            found == if self@.values.contains_key(keyword@) {
                Some(self@.values[keyword@])
            } else {
                None
            },
    {
        match self.specified_values.get(keyword) {
            Some(value) => Some(value.clone()),
            None => None,
        }
    }

    /// The resolved value of `keyword`, or else of `shorthand`, or else
    /// `default`.
    pub fn lookup(&self, keyword: &str, shorthand: &str, default: &Value) -> (found: Value)
        ensures
            found == lookup_in(self@.values, keyword@, shorthand@, *default),
    {
        match self.specified_values.get(keyword) {
            Some(value) => value.clone(),
            None => match self.specified_values.get(shorthand) {
                Some(value) => value.clone(),
                None => default.clone(),
            },
        }
    }
}

/// A styled tree has the shape of the content tree it was built from: one
/// styled node for each content node, with as many children, in the same
/// order.
pub proof fn lemma_styled_mirrors(node: Node, style: Stylesheet)
    ensures
        styled(node, style).mirrors(node),
    decreases node,
{
    match node {
        Node::Element { element, children } => {
            let tree = styled(node, style);
            assert forall|i: int| 0 <= i < tree.children.len() implies (
            #[trigger] tree.children[i]).mirrors(node.children()[i]) by {
                lemma_styled_mirrors(children@[i], style);
            }
        },
        Node::Text(_) => {},
    }
}

/// A styled tree that follows a content tree has as many nodes.
pub proof fn lemma_mirror_has_as_many_nodes(tree: StyledTree, node: Node)
    requires
        tree.mirrors(node),
    ensures
        tree.size() == node.size(),
    decreases tree,
{
    lemma_mirrors_have_as_many_nodes(tree.children, node.children());
}

/// Styled trees that follow content trees one by one have as many nodes.
proof fn lemma_mirrors_have_as_many_nodes(trees: Seq<StyledTree>, nodes: Seq<Node>)
    requires
        trees.len() == nodes.len(),
        forall|i: int| 0 <= i < trees.len() ==> (#[trigger] trees[i]).mirrors(nodes[i]),
    ensures
        StyledTree::total_size(trees) == Node::total_size(nodes),
    decreases trees,
{
    if trees.len() > 0 {
        lemma_mirrors_have_as_many_nodes(trees.drop_last(), nodes.drop_last());
        lemma_mirror_has_as_many_nodes(trees.last(), nodes.last());
    }
}

/// A text node is styled bare, whatever the stylesheet holds: it has no
/// property and no child.
pub proof fn lemma_text_is_bare(node: Node, style: Stylesheet)
    requires
        node is Text,
    ensures
        styled(node, style).node == node,
        styled(node, style).values == Map::<Seq<char>, Value>::empty(),
        styled(node, style).children.len() == 0,
{
}

/// An element to which no rule of the stylesheet applies matches nothing and
/// has no property: no name has a value, and the display mode is `Inline`.
pub proof fn lemma_unmatched_element(style: Stylesheet, element: ElementData)
    requires
        forall|b: int|
            0 <= b < style.rules@.len() ==> !(#[trigger] style.rules@[b]).applies_to(element),
    ensures
        style.matching(element).len() == 0,
        cascade(style.matching(element)) == Map::<Seq<char>, Value>::empty(),
        forall|name: Seq<char>| !cascade(style.matching(element)).contains_key(name),
        display_of(cascade(style.matching(element))) == Display::Inline,
{
    lemma_matching_none(style.rules@, element);
    lemma_nothing_matched(style.matching(element));
}

} // verus!
