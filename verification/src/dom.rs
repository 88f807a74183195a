//! The document model: a tree of text and element nodes.

use crate::scan::{lemma_split_on_first, split_on};
use vstd::hash_map::StringHashMap;
use vstd::hash_set::StringHashSet;
use vstd::prelude::*;
use vstd::std_specs::iter::IteratorSpec;
use vstd::string::*;

verus! {

/// Attribute names mapped to attribute values; a name occurs at most once.
pub type AttributeMap = StringHashMap<String>;

/// A node of the document tree: text or an element, and the children that it owns, in
/// their order. Text that the parser reads has no children.
pub struct Node {
    pub children: Vec<Node>,
    pub node_type: NodeType,
}

/// What a node is.
pub enum NodeType {
    Text(String),
    Element(ElementData),
}

/// The name of an element and its attributes.
pub struct ElementData {
    pub tag_name: String,
    pub attributes: AttributeMap,
}

/// What an element is, as mathematics: its name and its attributes.
pub struct ElementDataView {
    pub tag_name: Seq<char>,
    pub attributes: Map<Seq<char>, Seq<char>>,
}

/// What a node is, as mathematics.
pub enum NodeTypeView {
    Text(Seq<char>),
    Element(ElementDataView),
}

/// What a node is, as mathematics: its kind and the views of its children, in order.
pub struct NodeView {
    pub children: Seq<NodeView>,
    pub node_type: NodeTypeView,
}

/// The attribute map of an element with every value replaced by its characters.
pub open spec fn attributes_view(attributes: Map<Seq<char>, String>) -> Map<Seq<char>, Seq<char>> {
    attributes.map_values(|value: String| value@)
}

impl View for ElementData {
    type V = ElementDataView;

    open spec fn view(&self) -> ElementDataView {
        ElementDataView { tag_name: self.tag_name@, attributes: attributes_view(self.attributes@) }
    }
}

impl View for NodeType {
    type V = NodeTypeView;

    open spec fn view(&self) -> NodeTypeView {
        match self {
            NodeType::Text(content) => NodeTypeView::Text(content@),
            NodeType::Element(data) => NodeTypeView::Element(data@),
        }
    }
}

/// The view of a node: its kind, and the views of its children in their order.
pub open spec fn node_view(node: Node) -> NodeView
    decreases node,
{
    NodeView {
        children: Seq::new(
            node.children@.len(),
            |i: int|
                if 0 <= i < node.children@.len() {
                    node_view(node.children@[i])
                } else {
                    arbitrary()
                },
        ),
        node_type: node.node_type@,
    }
}

impl View for Node {
    type V = NodeView;

    open spec fn view(&self) -> NodeView {
        node_view(*self)
    }
}

/// The views of a sequence of nodes, in order.
pub open spec fn nodes_view(nodes: Seq<Node>) -> Seq<NodeView> {
    Seq::new(nodes.len(), |i: int| nodes[i]@)
}

impl NodeView {
    /// A text node: its content, and no children.
    pub open spec fn text(content: Seq<char>) -> NodeView {
        NodeView { children: Seq::empty(), node_type: NodeTypeView::Text(content) }
    }

    /// An element node.
    pub open spec fn element(
        tag_name: Seq<char>,
        attributes: Map<Seq<char>, Seq<char>>,
        children: Seq<NodeView>,
    ) -> NodeView {
        NodeView {
            children,
            node_type: NodeTypeView::Element(ElementDataView { tag_name, attributes }),
        }
    }

    /// Text nodes are leaves, here and in every subtree.
    pub open spec fn text_is_leaf(self) -> bool
        decreases self,
    {
        &&& self.node_type is Text ==> self.children.len() == 0
        &&& forall|i: int| 0 <= i < self.children.len() ==> (#[trigger] self.children[i]).text_is_leaf()
    }
}

/// A text node holding `data`. Nothing about `data` is checked.
pub fn text(data: String) -> (node: Node)
    ensures
        node@ == NodeView::text(data@),
        node.node_type == NodeType::Text(data),
        node.children@.len() == 0,
{
    let node = Node { children: Vec::new(), node_type: NodeType::Text(data) };
    assert(node@.children =~= Seq::empty());
    node
}

/// An element node. Nothing about the name, the attributes or the children is checked.
pub fn element(name: String, attributes: AttributeMap, children: Vec<Node>) -> (node: Node)
    ensures
        node@ == NodeView::element(name@, attributes_view(attributes@), nodes_view(children@)),
        node.children == children,
        node.node_type == NodeType::Element(ElementData { tag_name: name, attributes }),
{
    let node = Node {
        node_type: NodeType::Element(ElementData { tag_name: name, attributes: attributes }),
        children: children,
    };
    assert(node@.children =~= nodes_view(children@));
    node
}

/// The name of the attribute that `ElementData::id` reads.
pub open spec fn id_key() -> Seq<char> {
    seq!['i', 'd']
}

/// The name of the attribute that `ElementData::classes` reads.
pub open spec fn class_key() -> Seq<char> {
    seq!['c', 'l', 'a', 's', 's']
}

impl ElementDataView {
    /// The value of the attribute `id`, where there is one.
    pub open spec fn id(self) -> Option<Seq<char>> {
        if self.attributes.contains_key(id_key()) {
            Some(self.attributes[id_key()])
        } else {
            None
        }
    }

    /// The pieces of the attribute `class` between single spaces, as a set; the empty set
    /// where the element has no such attribute.
    pub open spec fn classes(self) -> Set<Seq<char>> {
        if self.attributes.contains_key(class_key()) {
            split_on(self.attributes[class_key()], ' ').to_set()
        } else {
            Set::empty()
        }
    }
}

impl ElementData {
    /// The value of the attribute `id`, where there is one.
    pub fn id(&self) -> (id: Option<&String>)
        ensures
            match id {
                Some(value) => self@.id() == Some(value@),
                None => self@.id() is None,
            },
    {
        proof {
            reveal_strlit("id");
            assert("id"@ =~= id_key());
        }
        self.attributes.get("id")
    }

    /// The classes of the element: the pieces of the attribute `class` between single
    /// spaces. Two spaces in a row, and a space at either end, give the empty class.
    pub fn classes(&self) -> (classes: StringHashSet)
        ensures
            classes@ == self@.classes(),
    {
        proof {
            reveal_strlit("class");
            assert("class"@ =~= class_key());
        }
        let mut classes = StringHashSet::new();
        match self.attributes.get("class") {
            None => classes,
            Some(list) => {
                let ghost s = list@;
                let ghost mut done: Seq<Seq<char>> = Seq::empty();
                let ghost mut start: int = 0;
                let ghost mut read: int = 0;
                let mut piece = String::new();
                let mut chars = list.as_str().chars();
                proof {
                    assert(s.skip(0) =~= s);
                    assert(s.subrange(0, 0) =~= Seq::<char>::empty());
                    assert(done + split_on(s.skip(0), ' ') =~= split_on(s, ' '));
                    assert(done.to_set() =~= Set::<Seq<char>>::empty());
                }
                loop
                    invariant
                        0 <= start <= read <= s.len(),
                        self@.attributes.contains_key(class_key()),
                        s == self@.attributes[class_key()],
                        chars.remaining() == s.skip(read),
                        piece@ == s.subrange(start, read),
                        forall|i: int| start <= i < read ==> s[i] != ' ',
                        classes@ == done.to_set(),
                        split_on(s, ' ') == done + split_on(s.skip(start), ' '),
                    decreases s.len() - read,
                {
                    let ghost tail = s.skip(start);
                    match chars.next() {
                        None => {
                            proof {
                                lemma_split_on_first(tail, ' ', tail.len() as int);
                                assert(piece@ =~= tail);
                                assert(done + seq![tail] =~= done.push(tail));
                                done.lemma_push_to_set_commute(tail);
                            }
                            classes.insert(piece);
                            return classes;
                        },
                        Some(c) => {
                            proof {
                                assert(s.skip(read).drop_first() =~= s.skip(read + 1));
                            }
                            if c == ' ' {
                                proof {
                                    let n = read - start;
                                    lemma_split_on_first(tail, ' ', n);
                                    assert(tail.take(n) =~= piece@);
                                    assert(tail.skip(n + 1) =~= s.skip(read + 1));
                                    assert(done + (seq![piece@] + split_on(s.skip(read + 1), ' '))
                                        =~= done.push(piece@) + split_on(s.skip(read + 1), ' '));
                                    done.lemma_push_to_set_commute(piece@);
                                    done = done.push(piece@);
                                    start = read + 1;
                                    assert(s.subrange(start, read + 1) =~= Seq::<char>::empty());
                                }
                                classes.insert(piece);
                                piece = String::new();
                            } else {
                                proof {
                                    assert(s.subrange(start, read + 1) =~= piece@.push(c));
                                }
                                piece.push(c);
                            }
                            proof {
                                read = read + 1;
                            }
                        },
                    }
                }
            },
        }
    }
}

} // verus!
