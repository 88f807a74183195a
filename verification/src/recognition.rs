//! Every text that the parse reads to its end is well-formed.

use crate::dom::NodeView;
use crate::grammar::{
    at_closing_tag, attribute_spec, attributes_spec, closing_tag_spec, element_spec, expect,
    lemma_attribute_consumes, lemma_attributes_rest, lemma_node_consumes, name_spec, node_spec,
    nodes_spec, parses_to_the_end, skip_whitespace,
};
use crate::roundtrip::lemma_well_formed_text_parses;
use crate::scan::{
    is_whitespace_char, lemma_run_length_bounds, name_chars, other_than, run_length, whitespace,
};
use crate::syntax::{
    attributes_added, attributes_well_formed, is_space, node_well_formed, nodes_well_formed,
    space_before, text_ends, tree, trees, AttributeSyntax, DocumentSyntax, NodeSyntax,
};
use crate::written::{
    attribute_then, attributes_then, body_then, closing_then, lemma_body_then, lemma_nodes_then,
    nodes_then,
};
use vstd::prelude::*;

verus! {

/// A text is the run that a scan finds in it, followed by what the scan leaves.
proof fn lemma_run_then_rest(s: Seq<char>, p: spec_fn(char) -> bool)
    ensures
        ({
            let n = run_length(s, p) as int;
            &&& 0 <= n <= s.len()
            &&& s == s.take(n) + s.skip(n)
            &&& forall|i: int| 0 <= i < n ==> p(#[trigger] s.take(n)[i])
            &&& s.skip(n).len() > 0 ==> !p(s.skip(n)[0])
        }),
{
    let n = run_length(s, p) as int;
    lemma_run_length_bounds(s, p);
    assert(s =~= s.take(n) + s.skip(n));
    assert forall|i: int| 0 <= i < n implies p(#[trigger] s.take(n)[i]) by {
        assert(s.take(n)[i] == s[i]);
    }
    if s.skip(n).len() > 0 {
        assert(s.skip(n)[0] == s[n]);
    }
}

/// A text in which `c` was expected and found is `c` followed by what was left.
proof fn lemma_expect_read(s: Seq<char>, c: char)
    requires
        expect(s, c) is Ok,
    ensures
        s == seq![c] + expect(s, c)->Ok_0,
{
    assert(s =~= seq![c] + s.skip(1));
}

/// The attribute that was read from `s`, without whitespace before it.
proof fn read_attribute(s: Seq<char>) -> (attribute: AttributeSyntax)
    requires
        attribute_spec(s) is Ok,
    ensures
        attribute.well_formed(),
        attribute.space.len() == 0,
        attribute_spec(s)->Ok_0.0 == (attribute.name, attribute.value),
        s == attribute_then(attribute, attribute_spec(s)->Ok_0.1),
{
    let (name, after_name) = name_spec(s);
    lemma_run_then_rest(s, name_chars());
    let after_equals = expect(after_name, '=')->Ok_0;
    lemma_expect_read(after_name, '=');
    let quote = after_equals[0];
    let body = after_equals.skip(1);
    assert(after_equals =~= seq![quote] + body);
    lemma_run_then_rest(body, other_than(quote));
    let n = run_length(body, other_than(quote)) as int;
    let value = body.take(n);
    lemma_expect_read(body.skip(n), quote);
    AttributeSyntax { space: Seq::empty(), name, quote, value }
}

/// The attributes that were read from `s`, and the whitespace after the last of them.
proof fn read_attributes(s: Seq<char>, found: Map<Seq<char>, Seq<char>>) -> (read: (
    Seq<AttributeSyntax>,
    Seq<char>,
))
    requires
        attributes_spec(s, found) is Ok,
    ensures
        forall|i: int| 0 <= i < read.0.len() ==> (#[trigger] read.0[i]).well_formed(),
        is_space(read.1),
        attributes_spec(s, found)->Ok_0.0 == attributes_added(found, read.0),
        attributes_spec(s, found)->Ok_0.1.len() > 0,
        attributes_spec(s, found)->Ok_0.1[0] == '>',
        s == attributes_then(read.0, read.1 + attributes_spec(s, found)->Ok_0.1),
    decreases s.len(),
{
    lemma_run_then_rest(s, whitespace());
    let k = run_length(s, whitespace()) as int;
    let space = s.take(k);
    let r = skip_whitespace(s);
    if r[0] == '>' {
        (Seq::empty(), space)
    } else {
        let ((name, value), rest) = attribute_spec(r)->Ok_0;
        lemma_attribute_consumes(r);
        let bare = read_attribute(r);
        let first = AttributeSyntax {
            space,
            name: bare.name,
            quote: bare.quote,
            value: bare.value,
        };
        let (others, tag_space) = read_attributes(rest, found.insert(name, value));
        let attributes = seq![first] + others;
        assert(attributes.drop_first() =~= others);
        assert(attribute_then(first, rest) == attribute_then(bare, rest));
        assert forall|i: int| 0 <= i < attributes.len() implies (
        #[trigger] attributes[i]).well_formed() by {
            if i > 0 {
                assert(attributes[i] == others[i - 1]);
            }
        }
        (attributes, tag_space)
    }
}

/// The node with `space` before it.
spec fn after_space(node: NodeSyntax, space: Seq<char>) -> NodeSyntax {
    match node {
        NodeSyntax::Text { content, .. } => NodeSyntax::Text { space, content },
        NodeSyntax::Element { name, attributes, tag_space, children, end_space, .. } =>
            NodeSyntax::Element { space, name, attributes, tag_space, children, end_space },
    }
}

/// What sibling nodes that were read from `s` begin with, where `s` does not begin with
/// whitespace: no whitespace, and no text where `s` begins with `<`.
spec fn begins_at_once(s: Seq<char>, nodes: Seq<NodeSyntax>, end_space: Seq<char>) -> bool {
    if nodes.len() == 0 {
        end_space.len() == 0
    } else {
        &&& space_before(nodes[0]).len() == 0
        &&& s.len() > 0 && s[0] == '<' ==> nodes[0] is Element
    }
}

/// The sibling nodes that were read from `s`, and the whitespace after the last of them.
proof fn read_nodes(s: Seq<char>, found: Seq<NodeView>) -> (read: (Seq<NodeSyntax>, Seq<char>))
    requires
        nodes_spec(s, found) is Ok,
    ensures
        nodes_well_formed(read.0, read.1),
        nodes_spec(s, found)->Ok_0.0 == found + trees(read.0),
        nodes_spec(s, found)->Ok_0.1.len() == 0 || at_closing_tag(nodes_spec(s, found)->Ok_0.1),
        s == nodes_then(read.0, read.1 + nodes_spec(s, found)->Ok_0.1),
        s.len() == 0 || !is_whitespace_char(s[0]) ==> begins_at_once(s, read.0, read.1),
    decreases s.len(), 2int,
{
    lemma_run_then_rest(s, whitespace());
    let k = run_length(s, whitespace()) as int;
    let space = s.take(k);
    let r = skip_whitespace(s);
    if r.len() == 0 || at_closing_tag(r) {
        let nodes = Seq::<NodeSyntax>::empty();
        assert(found + trees(nodes) =~= found);
        (nodes, space)
    } else {
        let (view, rest) = node_spec(r)->Ok_0;
        lemma_node_consumes(r);
        let bare = read_node(r);
        let first = after_space(bare, space);
        let (others, end_space) = read_nodes(rest, found.push(view));
        let nodes = seq![first] + others;
        assert(nodes.drop_first() =~= others);
        assert(body_then(first, rest) == body_then(bare, rest)) by {
            lemma_body_then(first, rest);
            lemma_body_then(bare, rest);
        }
        assert(tree(first) == tree(bare));
        assert(found.push(view) + trees(others) =~= found + trees(nodes));
        assert forall|i: int| 0 <= i < nodes.len() implies node_well_formed(#[trigger] nodes[i])
            && (nodes[i] is Text ==> text_ends(nodes, i, end_space)) by {
            if i > 0 {
                assert(nodes[i] == others[i - 1]);
                if i + 1 < nodes.len() {
                    assert(nodes[i + 1] == others[i]);
                }
                assert(text_ends(others, i - 1, end_space) == text_ends(nodes, i, end_space));
            } else {
                if others.len() > 0 {
                    assert(nodes[1] == others[0]);
                }
            }
        }
        (nodes, end_space)
    }
}

/// The node that was read from `s`, without whitespace before it.
proof fn read_node(s: Seq<char>) -> (node: NodeSyntax)
    requires
        node_spec(s) is Ok,
        s.len() > 0,
        !is_whitespace_char(s[0]),
    ensures
        node_well_formed(node),
        space_before(node).len() == 0,
        node_spec(s)->Ok_0.0 == tree(node),
        s == body_then(node, node_spec(s)->Ok_0.1),
        node is Element <==> s[0] == '<',
        node is Text ==> node_spec(s)->Ok_0.1.len() == 0 || node_spec(s)->Ok_0.1[0] == '<',
    decreases s.len(), 1int,
{
    if s[0] == '<' {
        read_element(s)
    } else {
        lemma_run_then_rest(s, other_than('<'));
        let n = run_length(s, other_than('<')) as int;
        let content = s.take(n);
        assert(content[0] == s[0]);
        NodeSyntax::Text { space: Seq::empty(), content }
    }
}

/// The element that was read from `s`, without whitespace before it.
proof fn read_element(s: Seq<char>) -> (node: NodeSyntax)
    requires
        element_spec(s) is Ok,
    ensures
        node is Element,
        node_well_formed(node),
        space_before(node).len() == 0,
        element_spec(s)->Ok_0.0 == tree(node),
        s == body_then(node, element_spec(s)->Ok_0.1),
    decreases s.len(), 0int,
{
    let after_angle = expect(s, '<')->Ok_0;
    lemma_expect_read(s, '<');
    let (name, after_name) = name_spec(after_angle);
    lemma_run_then_rest(after_angle, name_chars());
    let (map, at_end_of_tag) = attributes_spec(after_name, Map::empty())->Ok_0;
    lemma_attributes_rest(after_name, Map::empty());
    let (attributes, tag_space) = read_attributes(after_name, Map::empty());
    let inside = expect(at_end_of_tag, '>')->Ok_0;
    lemma_expect_read(at_end_of_tag, '>');
    let (views, at_closing) = nodes_spec(inside, Seq::empty())->Ok_0;
    let (children, end_space) = read_nodes(inside, Seq::empty());
    let rest = closing_tag_spec(at_closing, name)->Ok_0;
    assert(at_closing == closing_then(name, rest)) by {
        let after_first = expect(at_closing, '<')->Ok_0;
        lemma_expect_read(at_closing, '<');
        let after_slash = expect(after_first, '/')->Ok_0;
        lemma_expect_read(after_first, '/');
        lemma_run_then_rest(after_slash, name_chars());
        lemma_expect_read(name_spec(after_slash).1, '>');
    }
    let node = NodeSyntax::Element {
        space: Seq::empty(),
        name,
        attributes,
        tag_space,
        children,
        end_space,
    };
    assert(attributes_well_formed(attributes)) by {
        if attributes.len() > 0 && attributes[0].space.len() == 0 && attributes[0].name.len() > 0 {
            let first = attributes[0];
            let following = attributes_then(attributes.drop_first(), tag_space + at_end_of_tag);
            assert(after_name == first.space + attribute_then(first, following));
            assert(after_name[0] == first.name[0]);
        }
    }
    assert(Seq::<NodeView>::empty() + trees(children) =~= tree(node).children);
    node
}

/// A text that the parse reads to its end is well-formed: it is what a well-formed
/// document is written as. That document is returned.
pub proof fn lemma_text_that_parses_is_well_formed(s: Seq<char>) -> (document: DocumentSyntax)
    requires
        parses_to_the_end(s),
    ensures
        document.well_formed(),
        document.written() == s,
{
    let (nodes, end_space) = read_nodes(s, Seq::empty());
    lemma_nodes_then(nodes, end_space + Seq::<char>::empty());
    assert(end_space + Seq::<char>::empty() =~= end_space);
    DocumentSyntax { nodes, end_space }
}

/// The well-formed texts are the texts that the parse reads to their end.
pub proof fn lemma_well_formed_means_parsable(s: Seq<char>)
    ensures
        parses_to_the_end(s) <==> exists|document: DocumentSyntax|
            document.well_formed() && #[trigger] document.written() == s,
{
    if parses_to_the_end(s) {
        let document = lemma_text_that_parses_is_well_formed(s);
        assert(document.well_formed() && document.written() == s);
    }
    if exists|document: DocumentSyntax| document.well_formed() && #[trigger] document.written() == s {
        let document = choose|document: DocumentSyntax|
            document.well_formed() && #[trigger] document.written() == s;
        lemma_well_formed_text_parses(document);
    }
}

} // verus!
