//! What holds of every parse.

use crate::dom::NodeView;
use crate::error::ParseErrorKind;
use crate::grammar::{
    at_closing_tag, attribute_spec, attribute_value_spec, attributes_spec, closing_tag_spec,
    document_spec, element_spec, expect, lemma_attribute_consumes, lemma_attributes_rest,
    lemma_node_consumes, name_spec, node_spec, nodes_spec, skip_whitespace, Failure,
};
use crate::scan::{
    lemma_run_length_bounds, lemma_run_length_unique, name_chars, other_than, run_length,
    whitespace,
};
use crate::syntax::{is_space, lacks};
use vstd::prelude::*;

verus! {

/// `rest` is what is left of `s` after some of its characters.
pub open spec fn is_suffix(rest: Seq<char>, s: Seq<char>) -> bool {
    rest.len() <= s.len() && rest == s.skip(s.len() - rest.len())
}

/// What is left of a suffix after some of its characters is a suffix too.
pub proof fn lemma_skip_is_suffix(middle: Seq<char>, k: int, s: Seq<char>)
    requires
        is_suffix(middle, s),
        0 <= k <= middle.len(),
    ensures
        is_suffix(middle.skip(k), s),
{
    assert(middle.skip(k) =~= s.skip(s.len() - middle.skip(k).len()));
}

/// Whether it succeeds or fails, a rule leaves or reports a suffix of its input.
pub open spec fn stays_within<T>(outcome: Result<(T, Seq<char>), Failure>, s: Seq<char>) -> bool {
    match outcome {
        Ok((_, rest)) => is_suffix(rest, s),
        Err(failure) => is_suffix(failure.rest, s),
    }
}

proof fn lemma_expect_within(s: Seq<char>, c: char, base: Seq<char>)
    requires
        is_suffix(s, base),
    ensures
        match expect(s, c) {
            Ok(rest) => is_suffix(rest, base),
            Err(failure) => is_suffix(failure.rest, base),
        },
{
    if s.len() > 0 {
        lemma_skip_is_suffix(s, 1, base);
    }
}

proof fn lemma_name_within(s: Seq<char>, base: Seq<char>)
    requires
        is_suffix(s, base),
    ensures
        is_suffix(name_spec(s).1, base),
{
    lemma_run_length_bounds(s, name_chars());
    lemma_skip_is_suffix(s, run_length(s, name_chars()) as int, base);
}

proof fn lemma_whitespace_within(s: Seq<char>, base: Seq<char>)
    requires
        is_suffix(s, base),
    ensures
        is_suffix(skip_whitespace(s), base),
{
    lemma_run_length_bounds(s, whitespace());
    lemma_skip_is_suffix(s, run_length(s, whitespace()) as int, base);
}

proof fn lemma_attribute_within(s: Seq<char>, base: Seq<char>)
    requires
        is_suffix(s, base),
    ensures
        stays_within(attribute_spec(s), base),
{
    lemma_name_within(s, base);
    let after_name = name_spec(s).1;
    lemma_expect_within(after_name, '=', base);
    if let Ok(after_equals) = expect(after_name, '=') {
        if after_equals.len() > 0 {
            let quote = after_equals[0];
            let body = after_equals.skip(1);
            lemma_skip_is_suffix(after_equals, 1, base);
            lemma_run_length_bounds(body, other_than(quote));
            let n = run_length(body, other_than(quote)) as int;
            lemma_skip_is_suffix(body, n, base);
            lemma_expect_within(body.skip(n), quote, base);
        }
    }
}

proof fn lemma_attributes_within(s: Seq<char>, found: Map<Seq<char>, Seq<char>>, base: Seq<char>)
    requires
        is_suffix(s, base),
    ensures
        stays_within(attributes_spec(s, found), base),
    decreases s.len(),
{
    lemma_whitespace_within(s, base);
    lemma_run_length_bounds(s, whitespace());
    let r = skip_whitespace(s);
    if r.len() > 0 && r[0] != '>' {
        lemma_attribute_within(r, base);
        if let Ok(((name, value), rest)) = attribute_spec(r) {
            lemma_attribute_consumes(r);
            lemma_attributes_within(rest, found.insert(name, value), base);
        }
    }
}

proof fn lemma_closing_tag_within(s: Seq<char>, name: Seq<char>, base: Seq<char>)
    requires
        is_suffix(s, base),
    ensures
        match closing_tag_spec(s, name) {
            Ok(rest) => is_suffix(rest, base),
            Err(failure) => is_suffix(failure.rest, base),
        },
{
    lemma_expect_within(s, '<', base);
    if let Ok(after_angle) = expect(s, '<') {
        lemma_expect_within(after_angle, '/', base);
        if let Ok(after_slash) = expect(after_angle, '/') {
            lemma_name_within(after_slash, base);
            lemma_expect_within(name_spec(after_slash).1, '>', base);
        }
    }
}

proof fn lemma_nodes_within(s: Seq<char>, found: Seq<NodeView>, base: Seq<char>)
    requires
        is_suffix(s, base),
    ensures
        stays_within(nodes_spec(s, found), base),
    decreases s.len(), 2int,
{
    lemma_whitespace_within(s, base);
    lemma_run_length_bounds(s, whitespace());
    let r = skip_whitespace(s);
    if !(r.len() == 0 || at_closing_tag(r)) {
        lemma_node_within(r, base);
        if let Ok((node, rest)) = node_spec(r) {
            lemma_node_consumes(r);
            lemma_nodes_within(rest, found.push(node), base);
        }
    }
}

proof fn lemma_node_within(s: Seq<char>, base: Seq<char>)
    requires
        is_suffix(s, base),
    ensures
        stays_within(node_spec(s), base),
    decreases s.len(), 1int,
{
    if s.len() > 0 {
        if s[0] == '<' {
            lemma_element_within(s, base);
        } else {
            lemma_run_length_bounds(s, other_than('<'));
            lemma_skip_is_suffix(s, run_length(s, other_than('<')) as int, base);
        }
    }
}

proof fn lemma_element_within(s: Seq<char>, base: Seq<char>)
    requires
        is_suffix(s, base),
    ensures
        stays_within(element_spec(s), base),
    decreases s.len(), 0int,
{
    lemma_expect_within(s, '<', base);
    if let Ok(after_angle) = expect(s, '<') {
        lemma_name_within(after_angle, base);
        lemma_run_length_bounds(after_angle, name_chars());
        let (name, after_name) = name_spec(after_angle);
        lemma_attributes_within(after_name, Map::empty(), base);
        lemma_attributes_rest(after_name, Map::empty());
        if let Ok((attributes, at_end_of_tag)) = attributes_spec(after_name, Map::empty()) {
            lemma_expect_within(at_end_of_tag, '>', base);
            if let Ok(inside) = expect(at_end_of_tag, '>') {
                lemma_nodes_within(inside, Seq::empty(), base);
                if let Ok((children, at_closing)) = nodes_spec(inside, Seq::empty()) {
                    lemma_closing_tag_within(at_closing, name, base);
                }
            }
        }
    }
}

/// Where a parse fails, it fails at a place in its input: the unread input that the
/// failure reports is a suffix of the text.
pub proof fn lemma_failure_lies_in_the_text(s: Seq<char>)
    ensures
        document_spec(s) matches Err(failure) ==> is_suffix(failure.rest, s),
{
    assert(s.skip(0) =~= s);
    lemma_nodes_within(s, Seq::empty(), s);
}

proof fn lemma_nodes_are_trees(s: Seq<char>, found: Seq<NodeView>)
    requires
        forall|i: int| 0 <= i < found.len() ==> (#[trigger] found[i]).text_is_leaf(),
    ensures
        nodes_spec(s, found) matches Ok((nodes, _)) ==> forall|i: int|
            0 <= i < nodes.len() ==> (#[trigger] nodes[i]).text_is_leaf(),
    decreases s.len(), 2int,
{
    lemma_run_length_bounds(s, whitespace());
    let r = skip_whitespace(s);
    if !(r.len() == 0 || at_closing_tag(r)) {
        lemma_node_is_tree(r);
        if let Ok((node, rest)) = node_spec(r) {
            lemma_node_consumes(r);
            lemma_nodes_are_trees(rest, found.push(node));
        }
    }
}

proof fn lemma_node_is_tree(s: Seq<char>)
    ensures
        node_spec(s) matches Ok((node, _)) ==> node.text_is_leaf(),
    decreases s.len(), 1int,
{
    if s.len() > 0 && s[0] == '<' {
        lemma_element_is_tree(s);
    }
}

proof fn lemma_element_is_tree(s: Seq<char>)
    ensures
        element_spec(s) matches Ok((node, _)) ==> node.text_is_leaf(),
    decreases s.len(), 0int,
{
    if let Ok(after_angle) = expect(s, '<') {
        lemma_run_length_bounds(after_angle, name_chars());
        let (name, after_name) = name_spec(after_angle);
        lemma_attributes_rest(after_name, Map::empty());
        if let Ok((attributes, at_end_of_tag)) = attributes_spec(after_name, Map::empty()) {
            if let Ok(inside) = expect(at_end_of_tag, '>') {
                lemma_nodes_are_trees(inside, Seq::empty());
            }
        }
    }
}

/// In the tree that a parse returns, text nodes have no children.
pub proof fn lemma_text_nodes_are_leaves(s: Seq<char>)
    ensures
        document_spec(s) matches Ok(root) ==> root.text_is_leaf(),
{
    lemma_nodes_are_trees(s, Seq::empty());
}

/// Whitespace before a sibling node, or before the end of the siblings, changes nothing,
/// whatever follows it: neither what is found nor where a failure lies.
pub proof fn lemma_space_before_sibling(space: Seq<char>, s: Seq<char>, found: Seq<NodeView>)
    requires
        is_space(space),
    ensures
        nodes_spec(space + s, found) == nodes_spec(s, found),
{
    lemma_more_space(space, s);
}

/// Whitespace before an attribute, or before the end of the opening tag, changes nothing,
/// whatever follows it.
pub proof fn lemma_space_before_attribute(
    space: Seq<char>,
    s: Seq<char>,
    found: Map<Seq<char>, Seq<char>>,
)
    requires
        is_space(space),
    ensures
        attributes_spec(space + s, found) == attributes_spec(s, found),
{
    lemma_more_space(space, s);
}

/// A value that opens with one quote character and never meets that character again is
/// a structural mismatch, found at the end of the text, whatever else it holds: the other
/// quote character does not close it.
pub proof fn lemma_value_needs_its_own_quote(quote: char, body: Seq<char>)
    requires
        quote == '"' || quote == '\'',
        lacks(body, quote),
    ensures
        attribute_value_spec(seq![quote] + body) == Err::<(Seq<char>, Seq<char>), Failure>(
            Failure { kind: ParseErrorKind::ExpectedChar(quote), rest: Seq::empty() },
        ),
        ParseErrorKind::ExpectedChar(quote).structural_mismatch(),
{
    let s = seq![quote] + body;
    assert(s.skip(1) =~= body);
    lemma_run_length_unique(body, other_than(quote), body.len() as int);
    assert(body.skip(body.len() as int) =~= Seq::<char>::empty());
}

proof fn lemma_more_space(space: Seq<char>, s: Seq<char>)
    requires
        is_space(space),
    ensures
        skip_whitespace(space + s) == skip_whitespace(s),
{
    let k = run_length(s, whitespace()) as int;
    let n = space.len() + k;
    let all = space + s;
    lemma_run_length_bounds(s, whitespace());
    assert forall|i: int| 0 <= i < n implies whitespace()(#[trigger] all[i]) by {
        if i < space.len() {
            assert(all[i] == space[i]);
        } else {
            assert(all[i] == s[i - space.len()]);
        }
    }
    if n < all.len() {
        assert(all[n] == s[k]);
    }
    lemma_run_length_unique(all, whitespace(), n);
    assert(all.skip(n) =~= s.skip(k));
}

} // verus!
