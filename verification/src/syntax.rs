//! Documents as they are written.
//!
//! A syntax tree records what stands in a well-formed text, layout included: the
//! whitespace between siblings and between attributes, and the quote character of each
//! attribute value. Writing a syntax tree out gives the text; forgetting the layout gives
//! the document tree.

use crate::dom::NodeView;
use crate::grammar::implicit_root_name;
use crate::scan::{is_name_char, is_whitespace_char};
use vstd::prelude::*;

verus! {

/// Every character of `s` is whitespace.
pub open spec fn is_space(s: Seq<char>) -> bool {
    forall|i: int| 0 <= i < s.len() ==> is_whitespace_char(#[trigger] s[i])
}

/// Every character of `s` is a letter or a digit.
pub open spec fn is_name(s: Seq<char>) -> bool {
    forall|i: int| 0 <= i < s.len() ==> is_name_char(#[trigger] s[i])
}

/// The character `c` does not occur in `s`.
pub open spec fn lacks(s: Seq<char>, c: char) -> bool {
    forall|i: int| 0 <= i < s.len() ==> #[trigger] s[i] != c
}

/// One attribute as it is written: `space`, then `name`, `=`, and `value` between two
/// `quote` characters.
pub struct AttributeSyntax {
    pub space: Seq<char>,
    pub name: Seq<char>,
    pub quote: char,
    pub value: Seq<char>,
}

/// One node as it is written, after the whitespace `space`.
///
/// Text is written as its content. An element is written as `<`, its name, its
/// attributes, `tag_space`, `>`, its children, `end_space`, `</`, its name again, and `>`.
pub enum NodeSyntax {
    Text { space: Seq<char>, content: Seq<char> },
    Element {
        space: Seq<char>,
        name: Seq<char>,
        attributes: Seq<AttributeSyntax>,
        tag_space: Seq<char>,
        children: Seq<NodeSyntax>,
        end_space: Seq<char>,
    },
}

/// A whole document as it is written: the top-level nodes, then `end_space`.
pub struct DocumentSyntax {
    pub nodes: Seq<NodeSyntax>,
    pub end_space: Seq<char>,
}

impl AttributeSyntax {
    /// The space is whitespace, the name is made of letters and digits, the quote is one of
    /// the two quote characters, and the value does not hold it.
    pub open spec fn well_formed(self) -> bool {
        &&& is_space(self.space)
        &&& is_name(self.name)
        &&& (self.quote == '"' || self.quote == '\'')
        &&& lacks(self.value, self.quote)
    }

    /// The attribute as it is written.
    pub open spec fn written(self) -> Seq<char> {
        self.space + self.name + seq!['=', self.quote] + self.value + seq![self.quote]
    }
}

/// The whitespace that stands before a node.
pub open spec fn space_before(node: NodeSyntax) -> Seq<char> {
    match node {
        NodeSyntax::Text { space, .. } => space,
        NodeSyntax::Element { space, .. } => space,
    }
}

/// The attributes of a tag as they are written, one after the other.
pub open spec fn written_attributes(attributes: Seq<AttributeSyntax>) -> Seq<char>
    decreases attributes.len(),
{
    if attributes.len() == 0 {
        Seq::empty()
    } else {
        attributes[0].written() + written_attributes(attributes.drop_first())
    }
}

/// A node as it is written, without the whitespace before it.
pub open spec fn written_body(node: NodeSyntax) -> Seq<char>
    decreases node,
{
    match node {
        NodeSyntax::Text { content, .. } => content,
        NodeSyntax::Element { name, attributes, tag_space, children, end_space, .. } => seq!['<']
            + name + written_attributes(attributes) + tag_space + seq!['>'] + written_nodes(
            children,
        ) + end_space + seq!['<', '/'] + name + seq!['>'],
    }
}

/// Sibling nodes as they are written, each after its whitespace.
pub open spec fn written_nodes(nodes: Seq<NodeSyntax>) -> Seq<char>
    decreases nodes,
{
    if nodes.len() == 0 {
        Seq::empty()
    } else {
        space_before(nodes[0]) + written_body(nodes[0]) + written_nodes(nodes.drop_first())
    }
}

/// The attributes of a tag, added to `found` in the order in which they are written.
pub open spec fn attributes_added(
    found: Map<Seq<char>, Seq<char>>,
    attributes: Seq<AttributeSyntax>,
) -> Map<Seq<char>, Seq<char>>
    decreases attributes.len(),
{
    if attributes.len() == 0 {
        found
    } else {
        attributes_added(
            found.insert(attributes[0].name, attributes[0].value),
            attributes.drop_first(),
        )
    }
}

/// The document tree of a node: what is left of it when the layout is forgotten.
pub open spec fn tree(node: NodeSyntax) -> NodeView
    decreases node,
{
    match node {
        NodeSyntax::Text { content, .. } => NodeView::text(content),
        NodeSyntax::Element { name, attributes, children, .. } => NodeView::element(
            name,
            attributes_added(Map::empty(), attributes),
            Seq::new(
                children.len(),
                |i: int|
                    if 0 <= i < children.len() {
                        tree(children[i])
                    } else {
                        arbitrary()
                    },
            ),
        ),
    }
}

/// The document trees of sibling nodes, in order.
pub open spec fn trees(nodes: Seq<NodeSyntax>) -> Seq<NodeView> {
    Seq::new(nodes.len(), |i: int| tree(nodes[i]))
}

/// The attributes of a tag are well-formed, and the first of them cannot be taken for
/// more of the tag's name: it stands after whitespace, or has no name.
pub open spec fn attributes_well_formed(attributes: Seq<AttributeSyntax>) -> bool {
    &&& forall|i: int| 0 <= i < attributes.len() ==> (#[trigger] attributes[i]).well_formed()
    &&& attributes.len() > 0 ==> attributes[0].space.len() > 0 || attributes[0].name.len() == 0
}

/// What stands after the text node `nodes[i]` begins with `<` or is the end: the next
/// sibling is an element without whitespace before it, or there is no next sibling and no
/// whitespace after the last one. (Anything else would be more of the text.)
pub open spec fn text_ends(nodes: Seq<NodeSyntax>, i: int, end_space: Seq<char>) -> bool {
    if i + 1 < nodes.len() {
        nodes[i + 1] is Element && space_before(nodes[i + 1]).len() == 0
    } else {
        end_space.len() == 0
    }
}

/// A node is well-formed: its spaces are whitespace; text is not empty, holds no `<` and
/// does not begin with whitespace; an element has a name of letters and digits,
/// well-formed attributes and well-formed children.
pub open spec fn node_well_formed(node: NodeSyntax) -> bool
    decreases node, 0int,
{
    match node {
        NodeSyntax::Text { space, content } => {
            &&& is_space(space)
            &&& content.len() > 0
            &&& lacks(content, '<')
            &&& !is_whitespace_char(content[0])
        },
        NodeSyntax::Element { space, name, attributes, tag_space, children, end_space } => {
            &&& is_space(space)
            &&& is_name(name)
            &&& attributes_well_formed(attributes)
            &&& is_space(tag_space)
            &&& nodes_well_formed(children, end_space)
        },
    }
}

/// Sibling nodes, and the whitespace after the last of them, are well-formed: each node
/// is, and what follows each text node is no more of its text.
pub open spec fn nodes_well_formed(nodes: Seq<NodeSyntax>, end_space: Seq<char>) -> bool
    decreases nodes, 1int,
{
    &&& is_space(end_space)
    &&& forall|i: int|
        0 <= i < nodes.len() ==> node_well_formed(#[trigger] nodes[i]) && (nodes[i] is Text
            ==> text_ends(nodes, i, end_space))
}

/// An attribute with its layout forgotten: no whitespace before it, and `"` for its quote.
pub open spec fn attribute_without_layout(attribute: AttributeSyntax) -> AttributeSyntax {
    AttributeSyntax {
        space: Seq::empty(),
        name: attribute.name,
        quote: '"',
        value: attribute.value,
    }
}

/// A node with its layout forgotten, in itself and in all that it holds.
pub open spec fn without_layout(node: NodeSyntax) -> NodeSyntax
    decreases node,
{
    match node {
        NodeSyntax::Text { content, .. } => NodeSyntax::Text { space: Seq::empty(), content },
        NodeSyntax::Element { name, attributes, children, .. } => NodeSyntax::Element {
            space: Seq::empty(),
            name,
            attributes: Seq::new(
                attributes.len(),
                |i: int| attribute_without_layout(attributes[i]),
            ),
            tag_space: Seq::empty(),
            children: Seq::new(
                children.len(),
                |i: int|
                    if 0 <= i < children.len() {
                        without_layout(children[i])
                    } else {
                        arbitrary()
                    },
            ),
            end_space: Seq::empty(),
        },
    }
}

impl DocumentSyntax {
    /// The top-level nodes, and the whitespace after the last of them, are well-formed.
    pub open spec fn well_formed(self) -> bool {
        nodes_well_formed(self.nodes, self.end_space)
    }

    /// The document as it is written: the text.
    pub open spec fn written(self) -> Seq<char> {
        written_nodes(self.nodes) + self.end_space
    }

    /// The two documents hold the same, node for node, and differ in their layout at most.
    pub open spec fn same_but_for_layout(self, other: DocumentSyntax) -> bool {
        &&& self.nodes.len() == other.nodes.len()
        &&& forall|i: int|
            0 <= i < self.nodes.len() ==> without_layout(#[trigger] self.nodes[i])
                == without_layout(other.nodes[i])
    }

    /// The root of the document: its one top-level node, or else an element `html` without
    /// attributes that holds the top-level nodes.
    pub open spec fn root(self) -> NodeView {
        if self.nodes.len() == 1 {
            tree(self.nodes[0])
        } else {
            NodeView::element(implicit_root_name(), Map::empty(), trees(self.nodes))
        }
    }
}

} // verus!
