//! Texts as they are written, with what follows them.
//!
//! A parse reads a text from the left and hands on what it has not read. So what a piece
//! of syntax is written as is stated here together with the text that follows it.

use crate::syntax::{
    space_before, written_attributes, written_body, written_nodes, AttributeSyntax, NodeSyntax,
};
use vstd::prelude::*;

verus! {

/// The attributes as they are written, followed by `rest`.
pub open spec fn attributes_then(attributes: Seq<AttributeSyntax>, rest: Seq<char>) -> Seq<char>
    decreases attributes.len(),
{
    if attributes.len() == 0 {
        rest
    } else {
        attributes[0].space + attribute_then(
            attributes[0],
            attributes_then(attributes.drop_first(), rest),
        )
    }
}

/// An attribute as it is written, without the whitespace before it, followed by `rest`.
pub open spec fn attribute_then(attribute: AttributeSyntax, rest: Seq<char>) -> Seq<char> {
    attribute.name + (seq!['='] + (seq![attribute.quote] + (attribute.value + (seq![
        attribute.quote,
    ] + rest))))
}

/// The closing tag of an element called `name`, followed by `rest`.
pub open spec fn closing_then(name: Seq<char>, rest: Seq<char>) -> Seq<char> {
    seq!['<'] + (seq!['/'] + (name + (seq!['>'] + rest)))
}

/// A node as it is written, without the whitespace before it, followed by `rest`.
pub open spec fn body_then(node: NodeSyntax, rest: Seq<char>) -> Seq<char>
    decreases node,
{
    match node {
        NodeSyntax::Text { content, .. } => content + rest,
        NodeSyntax::Element { name, attributes, tag_space, children, end_space, .. } => seq!['<']
            + (name + attributes_then(
            attributes,
            tag_space + (seq!['>'] + nodes_then(
                children,
                end_space + closing_then(name, rest),
            )),
        )),
    }
}

/// Sibling nodes as they are written, followed by `rest`.
pub open spec fn nodes_then(nodes: Seq<NodeSyntax>, rest: Seq<char>) -> Seq<char>
    decreases nodes,
{
    if nodes.len() == 0 {
        rest
    } else {
        space_before(nodes[0]) + body_then(nodes[0], nodes_then(nodes.drop_first(), rest))
    }
}

/// Attributes followed by `rest` are the attributes as they are written, and then `rest`.
pub proof fn lemma_attributes_then(attributes: Seq<AttributeSyntax>, rest: Seq<char>)
    ensures
        attributes_then(attributes, rest) == written_attributes(attributes) + rest,
    decreases attributes.len(),
{
    if attributes.len() == 0 {
        assert(attributes_then(attributes, rest) =~= written_attributes(attributes) + rest);
    } else {
        lemma_attributes_then(attributes.drop_first(), rest);
        assert(attributes_then(attributes, rest) =~= written_attributes(attributes) + rest);
    }
}

/// A node followed by `rest` is the node as it is written, and then `rest`.
pub proof fn lemma_body_then(node: NodeSyntax, rest: Seq<char>)
    ensures
        body_then(node, rest) == written_body(node) + rest,
    decreases node,
{
    match node {
        NodeSyntax::Text { content, .. } => {},
        NodeSyntax::Element { name, attributes, tag_space, children, end_space, .. } => {
            let angle = seq!['<'];
            let close = seq!['>'];
            let written_children = written_nodes(children);
            let written_tag = written_attributes(attributes);
            // What follows each part, from the end of the element back to its name.
            let after_name = close + rest;
            let after_slash = name + after_name;
            let after_children = end_space + closing_then(name, rest);
            let inside = written_children + after_children;
            let after_attributes = tag_space + (close + inside);
            lemma_nodes_then(children, after_children);
            lemma_attributes_then(attributes, after_attributes);
            // What stands before each part, from the beginning of the element on.
            let to_name = angle + name;
            let to_attributes = to_name + written_tag;
            let to_close = to_attributes + tag_space;
            let to_children = to_close + close;
            let to_end_space = to_children + written_children;
            let to_closing = to_end_space + end_space;
            let to_closing_name = to_closing + seq!['<', '/'];
            let to_last = to_closing_name + name;
            assert(written_body(node) == to_last + close);
            assert((to_last + close) + rest =~= to_last + after_name);
            assert(to_last + after_name =~= to_closing_name + after_slash);
            assert(to_closing_name + after_slash =~= to_closing + closing_then(name, rest));
            assert(to_closing + closing_then(name, rest) =~= to_end_space + after_children);
            assert(to_end_space + after_children =~= to_children + inside);
            assert(to_children + inside =~= to_close + (close + inside));
            assert(to_close + (close + inside) =~= to_attributes + after_attributes);
            assert(to_attributes + after_attributes =~= to_name + (written_tag + after_attributes));
            assert(to_name + (written_tag + after_attributes) =~= angle + (name + (written_tag
                + after_attributes)));
        },
    }
}

/// Siblings followed by `rest` are the siblings as they are written, and then `rest`.
pub proof fn lemma_nodes_then(nodes: Seq<NodeSyntax>, rest: Seq<char>)
    ensures
        nodes_then(nodes, rest) == written_nodes(nodes) + rest,
    decreases nodes,
{
    if nodes.len() == 0 {
        assert(nodes_then(nodes, rest) =~= written_nodes(nodes) + rest);
    } else {
        lemma_nodes_then(nodes.drop_first(), rest);
        lemma_body_then(nodes[0], nodes_then(nodes.drop_first(), rest));
        assert(nodes_then(nodes, rest) =~= written_nodes(nodes) + rest);
    }
}

} // verus!
