//! The parser: a cursor over the source text and the grammar rules that move it.

use crate::encoding::{
    byte_offset, char_width, lemma_encode_split, lemma_offset_is_boundary, lemma_offset_reaches_end,
    lemma_offset_step, utf8_len,
};
use crate::dom::{attributes_view, element, nodes_view, text, AttributeMap, Node};
use crate::error::{ParseError, ParseErrorKind};
use crate::grammar::{
    at_closing_tag, attribute_spec, attribute_value_spec, attributes_spec, document_spec,
    element_spec, expect, implicit_root_name, lemma_attribute_consumes, lemma_attributes_rest,
    lemma_node_consumes, name_spec, node_spec, nodes_spec, skip_whitespace, text_spec, Failure,
};
use crate::scan::{
    lemma_run_length_bounds, lemma_run_length_unique, name_char, name_chars, other_than, whitespace,
    whitespace_char,
};
use vstd::prelude::*;
use vstd::std_specs::iter::IteratorSpec;
use vstd::string::*;
use vstd::utf8::*;

verus! {

/// `result` is what the parse of `source` gives: the root of the document, or, where an
/// expectation is not met, which one it is and the byte offset of the character at which
/// it is not met.
pub open spec fn is_parse_of(result: Result<Node, ParseError>, source: Seq<char>) -> bool {
    match document_spec(source) {
        Ok(root) => result is Ok && result->Ok_0@ == root,
        Err(failure) => result == Err::<Node, ParseError>(
            ParseError {
                kind: failure.kind,
                position: byte_offset(source, source.len() - failure.rest.len()) as usize,
            },
        ),
    }
}

/// Parsing one text twice gives the same: two trees with one view, or one error.
pub proof fn lemma_parse_is_repeatable(
    source: Seq<char>,
    first: Result<Node, ParseError>,
    second: Result<Node, ParseError>,
)
    requires
        is_parse_of(first, source),
        is_parse_of(second, source),
    ensures
        match first {
            Ok(root) => second is Ok && second->Ok_0@ == root@,
            Err(error) => second == Err::<Node, ParseError>(error),
        },
{
}

/// A source text and a cursor into it.
///
/// The cursor is kept twice: as the byte offset at which the next character starts, and,
/// for the contracts, as the number of characters before it.
pub struct Parser {
    position: usize,
    length: usize,
    data: String,
    index: Ghost<int>,
}

impl Parser {
    /// The whole source text.
    pub closed spec fn source(&self) -> Seq<char> {
        self.data@
    }

    /// How many characters have been consumed.
    pub closed spec fn cursor(&self) -> int {
        self.index@
    }

    /// The cursor as a byte offset into the source text.
    pub closed spec fn offset(&self) -> int {
        self.position as int
    }

    /// The length of the source text in bytes.
    pub closed spec fn length(&self) -> int {
        self.length as int
    }

    /// The unread input.
    pub open spec fn remaining(&self) -> Seq<char> {
        self.source().skip(self.cursor())
    }

    /// The cursor lies within the text, on a character boundary.
    pub open spec fn well_formed(&self) -> bool {
        &&& 0 <= self.cursor() <= self.source().len()
        &&& self.offset() == byte_offset(self.source(), self.cursor())
        &&& self.length() == utf8_len(self.source())
    }

    /// `later` is this parser moved on, over the same text, so that `rest` is unread.
    pub open spec fn moved_to(&self, later: &Parser, rest: Seq<char>) -> bool {
        &&& later.well_formed()
        &&& later.source() == self.source()
        &&& later.remaining() == rest
    }

    /// `later` is this parser stopped where a rule failed, and `error` tells of that
    /// failure: it names the expectation and gives the byte offset of the cursor.
    pub open spec fn stopped_at(&self, later: &Parser, error: ParseError, failure: Failure) -> bool {
        &&& self.moved_to(later, failure.rest)
        &&& error.kind == failure.kind
        &&& error.position == later.offset()
    }

    /// A parser at the start of `source`.
    pub fn new(source: String) -> (parser: Parser)
        ensures
            parser.well_formed(),
            parser.source() == source@,
            parser.cursor() == 0,
            parser.offset() == 0,
    {
        let length = source.as_str().as_bytes().len();
        proof {
            assert(source@.take(0) =~= Seq::<char>::empty());
        }
        Parser { position: 0, length, data: source, index: Ghost(0) }
    }

    /// The cursor, as a byte offset into the source text.
    pub fn position(&self) -> (position: usize)
        ensures
            position == self.offset(),
    {
        self.position
    }

    fn error(&self, kind: ParseErrorKind) -> (error: ParseError)
        requires
            self.well_formed(),
        ensures
            error == (ParseError { kind, position: self.offset() as usize }),
            self.stopped_at(self, error, Failure { kind, rest: self.remaining() }),
    {
        ParseError { kind, position: self.position }
    }

    fn unread(&self) -> (rest: &str)
        requires
            self.well_formed(),
        ensures
            rest@ == self.remaining(),
    {
        proof {
            lemma_offset_is_boundary(self.source(), self.cursor());
            lemma_encode_split(self.source(), self.cursor());
        }
        let (_, rest) = self.data.as_str().split_at(self.position);
        proof {
            encode_utf8_decode_utf8(rest@);
            encode_utf8_decode_utf8(self.remaining());
        }
        rest
    }

    /// The character at the cursor, which stays where it is.
    pub fn next_char(&self) -> (result: Result<char, ParseError>)
        requires
            self.well_formed(),
        ensures
            self.remaining().len() > 0 ==> result == Ok::<char, ParseError>(self.remaining()[0]),
            self.remaining().len() == 0 ==> result == Err::<char, ParseError>(
                ParseError {
                    kind: ParseErrorKind::BoundaryViolation,
                    position: self.offset() as usize,
                },
            ),
    {
        let mut chars = self.unread().chars();
        match chars.next() {
            Some(c) => Ok(c),
            None => Err(self.error(ParseErrorKind::BoundaryViolation)),
        }
    }

    /// Does the unread input begin with `s`?
    pub fn starts_with(&self, s: &str) -> (result: bool)
        requires
            self.well_formed(),
        ensures
            result == s@.is_prefix_of(self.remaining()),
    {
        let mut have = self.unread().chars();
        let mut want = s.chars();
        let ghost mut matched: int = 0;
        loop
            invariant
                0 <= matched <= s@.len(),
                matched <= self.remaining().len(),
                have.remaining() == self.remaining().skip(matched),
                want.remaining() == s@.skip(matched),
                forall|i: int| 0 <= i < matched ==> s@[i] == self.remaining()[i],
            decreases s@.len() - matched,
        {
            match want.next() {
                None => {
                    assert(s@ =~= self.remaining().subrange(0, s@.len() as int));
                    return true;
                },
                Some(wanted) => {
                    match have.next() {
                        None => {
                            return false;
                        },
                        Some(found) => {
                            if found != wanted {
                                assert(s@[matched] != self.remaining()[matched]);
                                return false;
                            }
                        },
                    }
                },
            }
            proof {
                assert(self.remaining().skip(matched).drop_first() =~= self.remaining().skip(
                    matched + 1,
                ));
                assert(s@.skip(matched).drop_first() =~= s@.skip(matched + 1));
                matched = matched + 1;
            }
        }
    }

    /// Is the cursor at or past the end of the text?
    pub fn end_reached(&self) -> (result: bool)
        requires
            self.well_formed(),
        ensures
            result == (self.remaining().len() == 0),
    {
        proof {
            lemma_offset_reaches_end(self.source(), self.cursor());
        }
        self.position >= self.length
    }

    /// Consumes the character at the cursor and returns it.
    pub fn consume_char(&mut self) -> (result: Result<char, ParseError>)
        requires
            old(self).well_formed(),
        ensures
            old(self).remaining().len() > 0 ==> result == Ok::<char, ParseError>(
                old(self).remaining()[0],
            ) && old(self).moved_to(final(self), old(self).remaining().skip(1)),
            old(self).remaining().len() == 0 ==> result == Err::<char, ParseError>(
                ParseError {
                    kind: ParseErrorKind::BoundaryViolation,
                    position: old(self).offset() as usize,
                },
            ) && *final(self) == *old(self),
    {
        match self.next_char() {
            Err(error) => Err(error),
            Ok(c) => {
                proof {
                    lemma_offset_step(self.source(), self.cursor());
                    assert(self.remaining().skip(1) =~= self.source().skip(self.cursor() + 1));
                }
                self.position = self.position + char_width(c);
                self.index = Ghost(self.index@ + 1);
                Ok(c)
            },
        }
    }

    /// Consumes characters for as long as `test` accepts the one at the cursor, and returns
    /// them. It stops at the first character that `test` refuses, or at the end of the text.
    pub fn consume_while<F: Fn(char) -> bool>(&mut self, test: F) -> (result: String)
        requires
            old(self).well_formed(),
            forall|c: char| #[trigger] call_requires(test, (c,)),
        ensures
            result@.len() <= old(self).remaining().len(),
            result@ == old(self).remaining().take(result@.len() as int),
            old(self).moved_to(final(self), old(self).remaining().skip(result@.len() as int)),
            forall|i: int|
                0 <= i < result@.len() ==> call_ensures(
                    test,
                    (#[trigger] old(self).remaining()[i],),
                    true,
                ),
            result@.len() < old(self).remaining().len() ==> call_ensures(
                test,
                (old(self).remaining()[result@.len() as int],),
                false,
            ),
    {
        let ghost input = self.remaining();
        let mut result = String::new();
        proof {
            assert(input.skip(0) =~= input);
        }
        loop
            invariant
                forall|c: char| #[trigger] call_requires(test, (c,)),
                input == old(self).remaining(),
                result@.len() <= input.len(),
                result@ == input.take(result@.len() as int),
                old(self).moved_to(self, input.skip(result@.len() as int)),
                forall|i: int| 0 <= i < result@.len() ==> call_ensures(test, (#[trigger] input[i],), true),
            decreases input.len() - result@.len(),
        {
            match self.next_char() {
                Err(_) => {
                    return result;
                },
                Ok(c) => {
                    if !test(c) {
                        return result;
                    }
                    let _ = self.consume_char();
                    result.push(c);
                    proof {
                        let n = result@.len() as int;
                        assert(input.skip(n - 1).skip(1) =~= input.skip(n));
                        assert(result@ =~= input.take(n));
                    }
                },
            }
        }
    }

    /// Skips the whitespace at the cursor.
    pub fn consume_whitespace(&mut self)
        requires
            old(self).well_formed(),
        ensures
            old(self).moved_to(final(self), skip_whitespace(old(self).remaining())),
    {
        let skipped = self.consume_while(whitespace_char);
        proof {
            lemma_run_length_unique(
                old(self).remaining(),
                whitespace(),
                skipped@.len() as int,
            );
        }
    }

    /// Reads a tag or attribute name: the letters and digits at the cursor, maybe none.
    pub fn parse_tag_name(&mut self) -> (name: String)
        requires
            old(self).well_formed(),
        ensures
            name@ == name_spec(old(self).remaining()).0,
            old(self).moved_to(final(self), name_spec(old(self).remaining()).1),
    {
        let name = self.consume_while(name_char);
        proof {
            lemma_run_length_unique(
                old(self).remaining(),
                name_chars(),
                name@.len() as int,
            );
        }
        name
    }

    /// Consumes `expected`, which must stand at the cursor.
    pub fn expect_char(&mut self, expected: char) -> (result: Result<(), ParseError>)
        requires
            old(self).well_formed(),
        ensures
            match expect(old(self).remaining(), expected) {
                Ok(rest) => result is Ok && old(self).moved_to(final(self), rest),
                Err(failure) => result is Err && old(self).stopped_at(
                    final(self),
                    result->Err_0,
                    failure,
                ),
            },
    {
        match self.next_char() {
            Ok(c) => {
                if c == expected {
                    let _ = self.consume_char();
                    Ok(())
                } else {
                    Err(self.error(ParseErrorKind::ExpectedChar(expected)))
                }
            },
            Err(_) => Err(self.error(ParseErrorKind::ExpectedChar(expected))),
        }
    }

    /// Reads text up to the next `<` or to the end.
    pub fn parse_text(&mut self) -> (node: Node)
        requires
            old(self).well_formed(),
        ensures
            node@ == text_spec(old(self).remaining()).0,
            old(self).moved_to(final(self), text_spec(old(self).remaining()).1),
    {
        let before_angle = |c: char| -> (b: bool)
            ensures
                b == (c != '<'),
        {
            c != '<'
        };
        let content = self.consume_while(before_angle);
        proof {
            lemma_run_length_unique(
                old(self).remaining(),
                other_than('<'),
                content@.len() as int,
            );
        }
        text(content)
    }

    /// Reads a quoted attribute value and returns what stands between the quotes.
    pub fn parse_attribute_value(&mut self) -> (result: Result<String, ParseError>)
        requires
            old(self).well_formed(),
        ensures
            match attribute_value_spec(old(self).remaining()) {
                Ok((value, rest)) => result is Ok && result->Ok_0@ == value && old(self).moved_to(
                    final(self),
                    rest,
                ),
                Err(failure) => result is Err && old(self).stopped_at(
                    final(self),
                    result->Err_0,
                    failure,
                ),
            },
    {
        let quote = match self.next_char() {
            Err(error) => {
                return Err(error);
            },
            Ok(c) => c,
        };
        if quote != '"' && quote != '\'' {
            return Err(self.error(ParseErrorKind::ExpectedQuote));
        }
        let _ = self.consume_char();
        let ghost body = self.remaining();
        let before_quote = |c: char| -> (b: bool)
            ensures
                b == (c != quote),
        {
            c != quote
        };
        let value = self.consume_while(before_quote);
        proof {
            lemma_run_length_unique(body, other_than(quote), value@.len() as int);
        }
        match self.expect_char(quote) {
            Err(error) => Err(error),
            Ok(_) => Ok(value),
        }
    }

    /// Reads one attribute: a name, `=`, and a quoted value.
    pub fn parse_attribute(&mut self) -> (result: Result<(String, String), ParseError>)
        requires
            old(self).well_formed(),
        ensures
            match attribute_spec(old(self).remaining()) {
                Ok(((name, value), rest)) => result is Ok && result->Ok_0.0@ == name
                    && result->Ok_0.1@ == value && old(self).moved_to(final(self), rest),
                Err(failure) => result is Err && old(self).stopped_at(
                    final(self),
                    result->Err_0,
                    failure,
                ),
            },
    {
        let name = self.parse_tag_name();
        match self.expect_char('=') {
            Err(error) => {
                return Err(error);
            },
            Ok(_) => {},
        }
        match self.parse_attribute_value() {
            Err(error) => Err(error),
            Ok(value) => Ok((name, value)),
        }
    }

    /// Reads the attributes of an opening tag, up to the `>` that ends it. Of two attributes
    /// with one name the later one stays.
    pub fn parse_attributes(&mut self) -> (result: Result<AttributeMap, ParseError>)
        requires
            old(self).well_formed(),
        ensures
            match attributes_spec(old(self).remaining(), Map::empty()) {
                Ok((attributes, rest)) => result is Ok && attributes_view(result->Ok_0@)
                    == attributes && old(self).moved_to(final(self), rest),
                Err(failure) => result is Err && old(self).stopped_at(
                    final(self),
                    result->Err_0,
                    failure,
                ),
            },
    {
        let ghost input = self.remaining();
        let mut attributes = AttributeMap::new();
        proof {
            assert(attributes_view(attributes@) =~= Map::empty());
        }
        loop
            invariant
                self.well_formed(),
                self.source() == old(self).source(),
                input == old(self).remaining(),
                attributes_spec(input, Map::empty()) == attributes_spec(
                    self.remaining(),
                    attributes_view(attributes@),
                ),
            decreases self.remaining().len(),
        {
            let ghost found = attributes_view(attributes@);
            proof {
                lemma_run_length_bounds(self.remaining(), whitespace());
            }
            self.consume_whitespace();
            match self.next_char() {
                Err(error) => {
                    return Err(error);
                },
                Ok(c) => {
                    if c == '>' {
                        return Ok(attributes);
                    }
                },
            }
            let ghost at_attribute = self.remaining();
            match self.parse_attribute() {
                Err(error) => {
                    return Err(error);
                },
                Ok((name, value)) => {
                    proof {
                        lemma_attribute_consumes(at_attribute);
                        assert(attributes_view(attributes@.insert(name@, value)) =~= found.insert(
                            name@,
                            value@,
                        ));
                    }
                    attributes.insert(name, value);
                },
            }
        }
    }

    /// Reads sibling nodes up to the end of the text or to the next `</`.
    pub fn parse_nodes(&mut self) -> (result: Result<Vec<Node>, ParseError>)
        requires
            old(self).well_formed(),
        ensures
            match nodes_spec(old(self).remaining(), Seq::empty()) {
                Ok((nodes, rest)) => result is Ok && nodes_view(result->Ok_0@) == nodes
                    && old(self).moved_to(final(self), rest),
                Err(failure) => result is Err && old(self).stopped_at(
                    final(self),
                    result->Err_0,
                    failure,
                ),
            },
        decreases old(self).remaining().len(), 2int,
    {
        let ghost input = self.remaining();
        let mut nodes: Vec<Node> = Vec::new();
        proof {
            assert(nodes_view(nodes@) =~= Seq::empty());
        }
        loop
            invariant
                self.well_formed(),
                self.source() == old(self).source(),
                input == old(self).remaining(),
                self.remaining().len() <= input.len(),
                nodes_spec(input, Seq::empty()) == nodes_spec(
                    self.remaining(),
                    nodes_view(nodes@),
                ),
            decreases self.remaining().len(),
        {
            let ghost found = nodes_view(nodes@);
            proof {
                lemma_run_length_bounds(self.remaining(), whitespace());
            }
            self.consume_whitespace();
            let at_closing = self.starts_with("</");
            proof {
                reveal_strlit("</");
                if at_closing_tag(self.remaining()) {
                    assert("</"@ =~= self.remaining().subrange(0, 2));
                }
                if at_closing {
                    assert(self.remaining().subrange(0, 2)[0] == '<');
                    assert(self.remaining().subrange(0, 2)[1] == '/');
                }
            }
            if self.end_reached() || at_closing {
                return Ok(nodes);
            }
            let ghost at_node = self.remaining();
            match self.parse_node() {
                Err(error) => {
                    return Err(error);
                },
                Ok(node) => {
                    proof {
                        lemma_node_consumes(at_node);
                        assert(nodes_view(nodes@.push(node)) =~= found.push(node@));
                    }
                    nodes.push(node);
                },
            }
        }
    }

    /// Reads one node: an element where a `<` stands at the cursor, text otherwise.
    pub fn parse_node(&mut self) -> (result: Result<Node, ParseError>)
        requires
            old(self).well_formed(),
        ensures
            match node_spec(old(self).remaining()) {
                Ok((node, rest)) => result is Ok && result->Ok_0@ == node && old(self).moved_to(
                    final(self),
                    rest,
                ),
                Err(failure) => result is Err && old(self).stopped_at(
                    final(self),
                    result->Err_0,
                    failure,
                ),
            },
        decreases old(self).remaining().len(), 1int,
    {
        match self.next_char() {
            Err(error) => Err(error),
            Ok(c) => {
                if c == '<' {
                    self.parse_element()
                } else {
                    Ok(self.parse_text())
                }
            },
        }
    }

    /// Reads one element: the opening tag, the children, and the closing tag.
    pub fn parse_element(&mut self) -> (result: Result<Node, ParseError>)
        requires
            old(self).well_formed(),
        ensures
            match element_spec(old(self).remaining()) {
                Ok((node, rest)) => result is Ok && result->Ok_0@ == node && old(self).moved_to(
                    final(self),
                    rest,
                ),
                Err(failure) => result is Err && old(self).stopped_at(
                    final(self),
                    result->Err_0,
                    failure,
                ),
            },
        decreases old(self).remaining().len(), 0int,
    {
        match self.expect_char('<') {
            Err(error) => {
                return Err(error);
            },
            Ok(_) => {},
        }
        let ghost after_angle = self.remaining();
        let tag_name = self.parse_tag_name();
        let ghost after_name = self.remaining();
        let attributes = match self.parse_attributes() {
            Err(error) => {
                return Err(error);
            },
            Ok(attributes) => attributes,
        };
        match self.expect_char('>') {
            Err(error) => {
                return Err(error);
            },
            Ok(_) => {},
        }
        proof {
            lemma_run_length_bounds(after_angle, name_chars());
            lemma_attributes_rest(after_name, Map::empty());
        }
        let children = match self.parse_nodes() {
            Err(error) => {
                return Err(error);
            },
            Ok(children) => children,
        };
        match self.expect_char('<') {
            Err(error) => {
                return Err(error);
            },
            Ok(_) => {},
        }
        match self.expect_char('/') {
            Err(error) => {
                return Err(error);
            },
            Ok(_) => {},
        }
        let at_name = self.position;
        let ghost index_at_name = self.index@;
        let closing_name = self.parse_tag_name();
        if !(closing_name == tag_name) {
            self.position = at_name;
            self.index = Ghost(index_at_name);
            return Err(self.error(ParseErrorKind::TagNameMismatch));
        }
        match self.expect_char('>') {
            Err(error) => {
                return Err(error);
            },
            Ok(_) => {},
        }
        Ok(element(tag_name, attributes, children))
    }

    /// Parses `source` into the root of its document tree.
    ///
    /// Where the text holds exactly one top-level node, that node is the root. Otherwise
    /// the root is an element `html` without attributes whose children are the top-level
    /// nodes. The parse stops at the first expectation that the text does not meet; the
    /// error names it and gives the byte offset at which it was not met.
    ///
    /// The parse has a cursor of its own: this parser is left as it was.
    pub fn parse(&mut self, source: String) -> (result: Result<Node, ParseError>)
        ensures
            *final(self) == *old(self),
            is_parse_of(result, source@),
    {
        let mut parser = Parser::new(source);
        proof {
            assert(parser.remaining() =~= source@);
        }
        let mut nodes = match parser.parse_nodes() {
            Err(error) => {
                return Err(error);
            },
            Ok(nodes) => nodes,
        };
        if nodes.len() == 1 {
            let ghost views = nodes_view(nodes@);
            let root = nodes.pop().unwrap();
            Ok(root)
        } else {
            let name = "html".to_owned();
            proof {
                reveal_strlit("html");
                assert(name@ =~= implicit_root_name());
            }
            let attributes = AttributeMap::new();
            proof {
                assert(attributes_view(attributes@) =~= Map::empty());
            }
            Ok(element(name, attributes, nodes))
        }
    }
}

} // verus!
