//! The grammar of the markup.
//!
//! Each rule is a function of the unread input. It gives what the rule produces together
//! with the input that is left, or the expectation that failed together with the input
//! that was unread where it failed.

use crate::dom::NodeView;
use crate::error::ParseErrorKind;
use crate::scan::{lemma_run_length_bounds, name_chars, other_than, run_length, whitespace};
use vstd::prelude::*;

verus! {

/// A failed expectation, and the input that was unread where it failed.
pub struct Failure {
    pub kind: ParseErrorKind,
    pub rest: Seq<char>,
}

/// The input without its leading whitespace.
pub open spec fn skip_whitespace(s: Seq<char>) -> Seq<char> {
    s.skip(run_length(s, whitespace()) as int)
}

/// The input must begin with `c`, which is consumed.
pub open spec fn expect(s: Seq<char>, c: char) -> Result<Seq<char>, Failure> {
    if s.len() > 0 && s[0] == c {
        Ok(s.skip(1))
    } else {
        Err(Failure { kind: ParseErrorKind::ExpectedChar(c), rest: s })
    }
}

/// The longest leading run of letters and digits, which may be empty.
pub open spec fn name_spec(s: Seq<char>) -> (Seq<char>, Seq<char>) {
    let n = run_length(s, name_chars()) as int;
    (s.take(n), s.skip(n))
}

/// Everything up to the next `<`, as a text node.
pub open spec fn text_spec(s: Seq<char>) -> (NodeView, Seq<char>) {
    let n = run_length(s, other_than('<')) as int;
    (NodeView::text(s.take(n)), s.skip(n))
}

/// A quote character, everything up to the next occurrence of that same character, and
/// that occurrence.
pub open spec fn attribute_value_spec(s: Seq<char>) -> Result<(Seq<char>, Seq<char>), Failure> {
    if s.len() == 0 {
        Err(Failure { kind: ParseErrorKind::BoundaryViolation, rest: s })
    } else if s[0] != '"' && s[0] != '\'' {
        Err(Failure { kind: ParseErrorKind::ExpectedQuote, rest: s })
    } else {
        let quote = s[0];
        let body = s.skip(1);
        let n = run_length(body, other_than(quote)) as int;
        match expect(body.skip(n), quote) {
            Err(failure) => Err(failure),
            Ok(rest) => Ok((body.take(n), rest)),
        }
    }
}

/// A name, `=`, and a quoted value.
pub open spec fn attribute_spec(s: Seq<char>) -> Result<((Seq<char>, Seq<char>), Seq<char>), Failure> {
    let (name, after_name) = name_spec(s);
    match expect(after_name, '=') {
        Err(failure) => Err(failure),
        Ok(after_equals) => match attribute_value_spec(after_equals) {
            Err(failure) => Err(failure),
            Ok((value, rest)) => Ok(((name, value), rest)),
        },
    }
}

/// Attributes up to, and not including, the `>` that ends the opening tag. They are added
/// to `found` in the order in which they stand, so of two with one name the later stays.
pub open spec fn attributes_spec(s: Seq<char>, found: Map<Seq<char>, Seq<char>>) -> Result<
    (Map<Seq<char>, Seq<char>>, Seq<char>),
    Failure,
>
    decreases s.len(),
{
    let r = skip_whitespace(s);
    if r.len() == 0 {
        Err(Failure { kind: ParseErrorKind::BoundaryViolation, rest: r })
    } else if r[0] == '>' {
        Ok((found, r))
    } else {
        match attribute_spec(r) {
            Err(failure) => Err(failure),
            Ok(((name, value), rest)) => {
                proof {
                    lemma_run_length_bounds(s, whitespace());
                    lemma_attribute_consumes(r);
                }
                attributes_spec(rest, found.insert(name, value))
            },
        }
    }
}

/// `</`, the name of the element that is being closed, and `>`.
pub open spec fn closing_tag_spec(s: Seq<char>, name: Seq<char>) -> Result<Seq<char>, Failure> {
    match expect(s, '<') {
        Err(failure) => Err(failure),
        Ok(after_angle) => match expect(after_angle, '/') {
            Err(failure) => Err(failure),
            Ok(after_slash) => {
                let (closing, after_name) = name_spec(after_slash);
                if closing != name {
                    Err(Failure { kind: ParseErrorKind::TagNameMismatch, rest: after_slash })
                } else {
                    expect(after_name, '>')
                }
            },
        }
    }
}

/// Does the input begin with `</`?
pub open spec fn at_closing_tag(s: Seq<char>) -> bool {
    s.len() >= 2 && s[0] == '<' && s[1] == '/'
}

/// Sibling nodes up to the end of the input or to the next `</`, added to `found` in their
/// order. Whitespace before each of them, and before the end, is skipped.
///
/// A node always consumes input (`lemma_node_consumes`); the test for it is what makes the
/// definition well-founded.
pub open spec fn nodes_spec(s: Seq<char>, found: Seq<NodeView>) -> Result<
    (Seq<NodeView>, Seq<char>),
    Failure,
>
    decreases s.len(), 2int,
{
    let r = skip_whitespace(s);
    if r.len() == 0 || at_closing_tag(r) {
        Ok((found, r))
    } else {
        proof {
            lemma_run_length_bounds(s, whitespace());
        }
        match node_spec(r) {
            Err(failure) => Err(failure),
            Ok((node, rest)) => if rest.len() < r.len() {
                nodes_spec(rest, found.push(node))
            } else {
                Ok((found.push(node), rest))
            },
        }
    }
}

/// An element where the input begins with `<`, text otherwise.
pub open spec fn node_spec(s: Seq<char>) -> Result<(NodeView, Seq<char>), Failure>
    decreases s.len(), 1int,
{
    if s.len() == 0 {
        Err(Failure { kind: ParseErrorKind::BoundaryViolation, rest: s })
    } else if s[0] == '<' {
        element_spec(s)
    } else {
        Ok(text_spec(s))
    }
}

/// An opening tag with its attributes, the children, and the closing tag of the same name.
pub open spec fn element_spec(s: Seq<char>) -> Result<(NodeView, Seq<char>), Failure>
    decreases s.len(), 0int,
{
    match expect(s, '<') {
        Err(failure) => Err(failure),
        Ok(after_angle) => {
            let (name, after_name) = name_spec(after_angle);
            match attributes_spec(after_name, Map::empty()) {
                Err(failure) => Err(failure),
                Ok((attributes, at_end_of_tag)) => match expect(at_end_of_tag, '>') {
                    Err(failure) => Err(failure),
                    Ok(inside) => {
                        proof {
                            lemma_run_length_bounds(after_angle, name_chars());
                            lemma_attributes_rest(after_name, Map::empty());
                        }
                        match nodes_spec(inside, Seq::empty()) {
                            Err(failure) => Err(failure),
                            Ok((children, at_closing)) => match closing_tag_spec(at_closing, name) {
                                Err(failure) => Err(failure),
                                Ok(rest) => Ok((NodeView::element(name, attributes, children), rest)),
                            },
                        }
                    },
                },
            }
        },
    }
}

/// The name of the element that stands in for the root where the text does not hold
/// exactly one top-level node.
pub open spec fn implicit_root_name() -> Seq<char> {
    seq!['h', 't', 'm', 'l']
}

/// The root of the document: the one top-level node, or else an element `html` without
/// attributes whose children are the top-level nodes.
pub open spec fn document_spec(s: Seq<char>) -> Result<NodeView, Failure> {
    match nodes_spec(s, Seq::empty()) {
        Err(failure) => Err(failure),
        Ok((nodes, _)) => if nodes.len() == 1 {
            Ok(nodes[0])
        } else {
            Ok(NodeView::element(implicit_root_name(), Map::empty(), nodes))
        },
    }
}

/// The parse reads all of the text: it succeeds, and stops at the end and not at a stray
/// `</`.
pub open spec fn parses_to_the_end(s: Seq<char>) -> bool {
    nodes_spec(s, Seq::empty()) matches Ok((_, rest)) && rest.len() == 0
}

/// An attribute consumes at least `=` and two quote characters.
pub proof fn lemma_attribute_consumes(s: Seq<char>)
    ensures
        attribute_spec(s) matches Ok((_, rest)) ==> rest.len() + 3 <= s.len(),
{
    lemma_run_length_bounds(s, name_chars());
    let (name, after_name) = name_spec(s);
    if let Ok(after_equals) = expect(after_name, '=') {
        if after_equals.len() > 0 {
            let quote = after_equals[0];
            lemma_run_length_bounds(after_equals.skip(1), other_than(quote));
        }
    }
}

/// The attributes of a tag leave the input at a `>`, and never longer than it was.
pub proof fn lemma_attributes_rest(s: Seq<char>, found: Map<Seq<char>, Seq<char>>)
    ensures
        attributes_spec(s, found) matches Ok((_, rest)) ==> rest.len() <= s.len() && rest.len() > 0
            && rest[0] == '>',
    decreases s.len(),
{
    lemma_run_length_bounds(s, whitespace());
    let r = skip_whitespace(s);
    if r.len() > 0 && r[0] != '>' {
        if let Ok(((name, value), rest)) = attribute_spec(r) {
            lemma_attribute_consumes(r);
            lemma_attributes_rest(rest, found.insert(name, value));
        }
    }
}

/// A sibling sequence leaves the input at its end or at a `</`, and never longer than it
/// was.
pub proof fn lemma_nodes_rest(s: Seq<char>, found: Seq<NodeView>)
    ensures
        nodes_spec(s, found) matches Ok((_, rest)) ==> rest.len() <= s.len() && (rest.len() == 0
            || at_closing_tag(rest)),
    decreases s.len(), 2int,
{
    lemma_run_length_bounds(s, whitespace());
    let r = skip_whitespace(s);
    if !(r.len() == 0 || at_closing_tag(r)) {
        lemma_node_consumes(r);
        if let Ok((node, rest)) = node_spec(r) {
            lemma_nodes_rest(rest, found.push(node));
        }
    }
}

/// A node consumes at least one character.
pub proof fn lemma_node_consumes(s: Seq<char>)
    ensures
        node_spec(s) matches Ok((_, rest)) ==> rest.len() < s.len(),
    decreases s.len(), 1int,
{
    if s.len() > 0 {
        if s[0] == '<' {
            lemma_element_consumes(s);
        } else {
            lemma_run_length_bounds(s, other_than('<'));
        }
    }
}

/// An element consumes at least one character.
pub proof fn lemma_element_consumes(s: Seq<char>)
    ensures
        element_spec(s) matches Ok((_, rest)) ==> rest.len() < s.len(),
    decreases s.len(), 0int,
{
    if let Ok(after_angle) = expect(s, '<') {
        lemma_run_length_bounds(after_angle, name_chars());
        let (name, after_name) = name_spec(after_angle);
        lemma_attributes_rest(after_name, Map::empty());
        if let Ok((attributes, at_end_of_tag)) = attributes_spec(after_name, Map::empty()) {
            let inside = at_end_of_tag.skip(1);
            lemma_nodes_rest(inside, Seq::empty());
            if let Ok((children, at_closing)) = nodes_spec(inside, Seq::empty()) {
                lemma_closing_tag_rest(at_closing, name);
            }
        }
    }
}

/// A closing tag leaves less input than there was.
pub proof fn lemma_closing_tag_rest(s: Seq<char>, name: Seq<char>)
    ensures
        closing_tag_spec(s, name) matches Ok(rest) ==> rest.len() + 3 + name.len() == s.len(),
{
    if s.len() >= 2 {
        lemma_run_length_bounds(s.skip(1).skip(1), name_chars());
    }
}

} // verus!
