//! Every well-formed text parses, and to the tree that was written.

use crate::dom::NodeView;
use crate::grammar::{
    at_closing_tag, attribute_spec, attributes_spec, closing_tag_spec, document_spec, expect,
    lemma_node_consumes, name_spec, node_spec, nodes_spec, parses_to_the_end, skip_whitespace,
    Failure,
};
use crate::scan::{
    is_name_char, is_whitespace_char, lemma_run_length_unique, name_chars, other_than, run_length,
    whitespace,
};
use crate::syntax::{
    attribute_without_layout, attributes_added, attributes_well_formed, is_name, is_space,
    node_well_formed, nodes_well_formed, space_before, text_ends, tree, trees, without_layout,
    AttributeSyntax, DocumentSyntax, NodeSyntax,
};
use crate::written::{
    attribute_then, attributes_then, body_then, closing_then, lemma_nodes_then, nodes_then,
};
use vstd::prelude::*;

verus! {

/// A run of characters that satisfy `p`, followed by one that does not or by the end, is
/// found whole.
proof fn lemma_run_of_prefix(run: Seq<char>, rest: Seq<char>, p: spec_fn(char) -> bool)
    requires
        forall|i: int| 0 <= i < run.len() ==> p(#[trigger] run[i]),
        rest.len() > 0 ==> !p(rest[0]),
    ensures
        run_length(run + rest, p) == run.len(),
        (run + rest).take(run.len() as int) == run,
        (run + rest).skip(run.len() as int) == rest,
{
    let s = run + rest;
    assert forall|i: int| 0 <= i < run.len() implies p(#[trigger] s[i]) by {
        assert(s[i] == run[i]);
    }
    if rest.len() > 0 {
        assert(s[run.len() as int] == rest[0]);
    }
    lemma_run_length_unique(s, p, run.len() as int);
    assert(s.take(run.len() as int) =~= run);
    assert(s.skip(run.len() as int) =~= rest);
}

/// A character that is expected is found where the text begins with it.
proof fn lemma_expect_found(c: char, rest: Seq<char>)
    ensures
        expect(seq![c] + rest, c) == Ok::<Seq<char>, Failure>(rest),
{
    assert((seq![c] + rest).skip(1) =~= rest);
}

proof fn lemma_skip_space(space: Seq<char>, rest: Seq<char>)
    requires
        is_space(space),
        rest.len() > 0 ==> !is_whitespace_char(rest[0]),
    ensures
        skip_whitespace(space + rest) == rest,
{
    lemma_run_of_prefix(space, rest, whitespace());
}

proof fn lemma_name_found(name: Seq<char>, rest: Seq<char>)
    requires
        is_name(name),
        rest.len() > 0 ==> !is_name_char(rest[0]),
    ensures
        name_spec(name + rest) == (name, rest),
{
    lemma_run_of_prefix(name, rest, name_chars());
}

proof fn lemma_attribute_found(attribute: AttributeSyntax, rest: Seq<char>)
    requires
        attribute.well_formed(),
    ensures
        attribute_spec(attribute_then(attribute, rest)) == Ok::<
            ((Seq<char>, Seq<char>), Seq<char>),
            Failure,
        >(((attribute.name, attribute.value), rest)),
        attribute_then(attribute, rest).len() > 0,
        !is_whitespace_char(attribute_then(attribute, rest)[0]),
        !is_name_char(attribute_then(attribute, rest)[0]) || attribute.name.len() > 0,
        attribute_then(attribute, rest)[0] != '>',
{
    let quote = attribute.quote;
    let after_value = seq![quote] + rest;
    let body = attribute.value + after_value;
    let after_equals = seq![quote] + body;
    let after_name = seq!['='] + after_equals;
    let s = attribute.name + after_name;
    assert(s == attribute_then(attribute, rest));
    lemma_name_found(attribute.name, after_name);
    lemma_expect_found('=', after_equals);
    assert(after_equals.skip(1) =~= body);
    lemma_run_of_prefix(attribute.value, after_value, other_than(quote));
    lemma_expect_found(quote, rest);
    if attribute.name.len() > 0 {
        assert(s[0] == attribute.name[0]);
    } else {
        assert(s[0] == '=');
    }
}

proof fn lemma_attributes_found(
    attributes: Seq<AttributeSyntax>,
    tag_space: Seq<char>,
    rest: Seq<char>,
    found: Map<Seq<char>, Seq<char>>,
)
    requires
        forall|i: int| 0 <= i < attributes.len() ==> (#[trigger] attributes[i]).well_formed(),
        is_space(tag_space),
    ensures
        attributes_spec(attributes_then(attributes, tag_space + (seq!['>'] + rest)), found) == Ok::<
            (Map<Seq<char>, Seq<char>>, Seq<char>),
            Failure,
        >((attributes_added(found, attributes), seq!['>'] + rest)),
    decreases attributes.len(),
{
    let end = seq!['>'] + rest;
    if attributes.len() == 0 {
        lemma_skip_space(tag_space, end);
    } else {
        let first = attributes[0];
        let others = attributes.drop_first();
        let after = attributes_then(others, tag_space + end);
        lemma_attribute_found(first, after);
        lemma_skip_space(first.space, attribute_then(first, after));
        assert forall|i: int| 0 <= i < others.len() implies (#[trigger] others[i]).well_formed() by {
            assert(others[i] == attributes[i + 1]);
        }
        lemma_attributes_found(others, tag_space, rest, found.insert(first.name, first.value));
    }
}

/// What attributes and the end of an opening tag begin with is no character of a name,
/// where the first attribute cannot be taken for more of the name.
proof fn lemma_attributes_begin(
    attributes: Seq<AttributeSyntax>,
    tag_space: Seq<char>,
    rest: Seq<char>,
)
    requires
        attributes_well_formed(attributes),
        is_space(tag_space),
    ensures
        attributes_then(attributes, tag_space + (seq!['>'] + rest)).len() > 0,
        !is_name_char(attributes_then(attributes, tag_space + (seq!['>'] + rest))[0]),
        attributes_then(attributes, tag_space + (seq!['>'] + rest))[0] != '/',
{
    let end = tag_space + (seq!['>'] + rest);
    if attributes.len() == 0 {
        if tag_space.len() > 0 {
            assert(end[0] == tag_space[0]);
        } else {
            assert(end[0] == '>');
        }
    } else {
        let first = attributes[0];
        let after = attributes_then(attributes.drop_first(), end);
        let s = first.space + attribute_then(first, after);
        lemma_attribute_found(first, after);
        if first.space.len() > 0 {
            assert(s[0] == first.space[0]);
        } else {
            assert(s[0] == attribute_then(first, after)[0]);
            assert(attribute_then(first, after)[0] == '=');
        }
    }
}

proof fn lemma_closing_found(name: Seq<char>, rest: Seq<char>)
    requires
        is_name(name),
    ensures
        closing_tag_spec(closing_then(name, rest), name) == Ok::<
            Seq<char>,
            Failure,
        >(rest),
        at_closing_tag(closing_then(name, rest)),
{
    let after_name = seq!['>'] + rest;
    let after_slash = name + after_name;
    let after_angle = seq!['/'] + after_slash;
    lemma_expect_found('<', after_angle);
    lemma_expect_found('/', after_slash);
    lemma_name_found(name, after_name);
    lemma_expect_found('>', rest);
}

/// What a well-formed node is written as begins with a character that is neither
/// whitespace nor the beginning of a closing tag.
proof fn lemma_body_begins(node: NodeSyntax, rest: Seq<char>)
    requires
        node_well_formed(node),
    ensures
        body_then(node, rest).len() > 0,
        !is_whitespace_char(body_then(node, rest)[0]),
        !at_closing_tag(body_then(node, rest)),
        node is Element <==> body_then(node, rest)[0] == '<',
{
    match node {
        NodeSyntax::Text { content, .. } => {
            assert(body_then(node, rest)[0] == content[0]);
        },
        NodeSyntax::Element { name, attributes, tag_space, children, end_space, .. } => {
            let inside = nodes_then(children, end_space + closing_then(name, rest));
            let after_name = attributes_then(attributes, tag_space + (seq!['>'] + inside));
            lemma_attributes_begin(attributes, tag_space, inside);
            let s = body_then(node, rest);
            assert(s == seq!['<'] + (name + after_name));
            assert(s[0] == '<');
            if name.len() > 0 {
                assert(s[1] == name[0]);
            } else {
                assert(s[1] == after_name[0]);
            }
        },
    }
}

proof fn lemma_node_found(node: NodeSyntax, rest: Seq<char>)
    requires
        node_well_formed(node),
        node is Text ==> rest.len() == 0 || rest[0] == '<',
    ensures
        node_spec(body_then(node, rest)) == Ok::<(NodeView, Seq<char>), Failure>(
            (tree(node), rest),
        ),
    decreases node, 0int,
{
    lemma_body_begins(node, rest);
    match node {
        NodeSyntax::Text { content, .. } => {
            lemma_run_of_prefix(content, rest, other_than('<'));
        },
        NodeSyntax::Element { name, attributes, tag_space, children, end_space, .. } => {
            let closing = closing_then(name, rest);
            let inside = nodes_then(children, end_space + closing);
            let after_name = attributes_then(attributes, tag_space + (seq!['>'] + inside));
            let after_angle = name + after_name;
            let s = seq!['<'] + after_angle;
            assert(s == body_then(node, rest));
            lemma_expect_found('<', after_angle);
            lemma_attributes_begin(attributes, tag_space, inside);
            lemma_name_found(name, after_name);
            lemma_attributes_found(attributes, tag_space, inside, Map::empty());
            lemma_expect_found('>', inside);
            lemma_closing_found(name, rest);
            lemma_nodes_found(children, end_space, closing, Seq::empty());
            assert(Seq::<NodeView>::empty() + trees(children) =~= tree(node).children);
        },
    }
}

proof fn lemma_nodes_found(
    nodes: Seq<NodeSyntax>,
    end_space: Seq<char>,
    rest: Seq<char>,
    found: Seq<NodeView>,
)
    requires
        nodes_well_formed(nodes, end_space),
        rest.len() == 0 || at_closing_tag(rest),
    ensures
        nodes_spec(nodes_then(nodes, end_space + rest), found) == Ok::<
            (Seq<NodeView>, Seq<char>),
            Failure,
        >((found + trees(nodes), rest)),
    decreases nodes, 1int,
{
    if nodes.len() == 0 {
        lemma_skip_space(end_space, rest);
        assert(found + trees(nodes) =~= found);
    } else {
        let first = nodes[0];
        let others = nodes.drop_first();
        let follow = nodes_then(others, end_space + rest);
        let body = body_then(first, follow);
        lemma_body_begins(first, follow);
        lemma_skip_space(space_before(first), body);
        assert forall|i: int| 0 <= i < others.len() implies node_well_formed(#[trigger] others[i])
            && (others[i] is Text ==> text_ends(others, i, end_space)) by {
            assert(others[i] == nodes[i + 1]);
            if i + 1 < others.len() {
                assert(others[i + 1] == nodes[i + 2]);
            }
        }
        if first is Text {
            assert(text_ends(nodes, 0, end_space));
            if others.len() > 0 {
                assert(others[0] == nodes[1]);
                lemma_body_begins(others[0], nodes_then(others.drop_first(), end_space + rest));
                assert(follow.len() > 0 && follow[0] == '<');
            } else {
                assert(follow =~= rest);
            }
        }
        lemma_node_found(first, follow);
        lemma_node_consumes(body);
        lemma_nodes_found(others, end_space, rest, found.push(tree(first)));
        assert(found.push(tree(first)) + trees(others) =~= found + trees(nodes));
    }
}

/// A well-formed text parses, and to the tree that was written: the parse of what a
/// well-formed document is written as succeeds, and gives the document's root.
///
/// The root does not depend on the layout. So the whitespace between siblings and between
/// attributes, and the choice of the quote character around a value, leave no trace in
/// the tree.
pub proof fn lemma_well_formed_text_parses(document: DocumentSyntax)
    requires
        document.well_formed(),
    ensures
        document_spec(document.written()) == Ok::<NodeView, Failure>(
            document.root(),
        ),
        parses_to_the_end(document.written()),
{
    let rest = Seq::<char>::empty();
    lemma_nodes_found(document.nodes, document.end_space, rest, Seq::empty());
    lemma_nodes_then(document.nodes, document.end_space + rest);
    assert(document.end_space + rest =~= document.end_space);
    assert(Seq::<NodeView>::empty() + trees(document.nodes) =~= trees(document.nodes));
}

proof fn lemma_attributes_without_layout(
    found: Map<Seq<char>, Seq<char>>,
    attributes: Seq<AttributeSyntax>,
    plain: Seq<AttributeSyntax>,
)
    requires
        plain.len() == attributes.len(),
        forall|i: int|
            0 <= i < attributes.len() ==> #[trigger] plain[i] == attribute_without_layout(
                attributes[i],
            ),
    ensures
        attributes_added(found, plain) == attributes_added(found, attributes),
    decreases attributes.len(),
{
    if attributes.len() > 0 {
        lemma_attributes_without_layout(
            found.insert(attributes[0].name, attributes[0].value),
            attributes.drop_first(),
            plain.drop_first(),
        );
    }
}

/// The document tree of a node does not depend on its layout.
proof fn lemma_tree_without_layout(node: NodeSyntax)
    ensures
        tree(without_layout(node)) == tree(node),
    decreases node,
{
    match node {
        NodeSyntax::Text { .. } => {},
        NodeSyntax::Element { attributes, children, .. } => {
            let plain = without_layout(node);
            lemma_attributes_without_layout(Map::empty(), attributes, plain->attributes);
            assert forall|i: int| 0 <= i < children.len() implies tree(plain->children[i]) == tree(
                children[i],
            ) by {
                lemma_tree_without_layout(children[i]);
            }
            assert(tree(plain).children =~= tree(node).children);
        },
    }
}

/// Layout leaves no trace: two well-formed documents that differ in nothing but the
/// whitespace between siblings and between attributes, and the quote characters around
/// attribute values, parse to the same.
pub proof fn lemma_layout_leaves_no_trace(first: DocumentSyntax, second: DocumentSyntax)
    requires
        first.well_formed(),
        second.well_formed(),
        first.same_but_for_layout(second),
    ensures
        document_spec(first.written()) == document_spec(second.written()),
{
    lemma_well_formed_text_parses(first);
    lemma_well_formed_text_parses(second);
    assert forall|i: int| 0 <= i < first.nodes.len() implies tree(first.nodes[i]) == tree(
        second.nodes[i],
    ) by {
        lemma_tree_without_layout(first.nodes[i]);
        lemma_tree_without_layout(second.nodes[i]);
    }
    assert(trees(first.nodes) =~= trees(second.nodes));
}

} // verus!
