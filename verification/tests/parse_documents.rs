use html_tree::dom::{ElementData, Node, NodeType};
use html_tree::error::{ParseError, ParseErrorKind};
use html_tree::html_parser::Parser;

fn parse(source: &str) -> Result<Node, ParseError> {
    Parser::new(String::new()).parse(source.to_string())
}

fn parsed(source: &str) -> Node {
    match parse(source) {
        Ok(node) => node,
        Err(error) => panic!("{:?} does not parse: {:?}", source, error),
    }
}

fn failure(source: &str) -> ParseError {
    match parse(source) {
        Ok(_) => panic!("{:?} parses", source),
        Err(error) => error,
    }
}

fn as_element(node: &Node) -> &ElementData {
    match &node.node_type {
        NodeType::Element(data) => data,
        NodeType::Text(content) => panic!("text {:?} where an element was expected", content),
    }
}

fn as_text(node: &Node) -> &str {
    match &node.node_type {
        NodeType::Text(content) => content.as_str(),
        NodeType::Element(data) => panic!("element {:?} where text was expected", data.tag_name),
    }
}

fn attribute<'a>(node: &'a Node, name: &str) -> Option<&'a str> {
    as_element(node).attributes.get(name).map(|value| value.as_str())
}

#[test]
fn multiple_roots_are_wrapped_in_html() {
    let root = parsed("<p>A</p><p>B</p>");
    let data = as_element(&root);
    assert_eq!(data.tag_name, "html");
    assert_eq!(data.attributes.len(), 0);
    assert_eq!(root.children.len(), 2);
    for (child, content) in root.children.iter().zip(["A", "B"]) {
        assert_eq!(as_element(child).tag_name, "p");
        assert_eq!(as_element(child).attributes.len(), 0);
        assert_eq!(child.children.len(), 1);
        assert_eq!(as_text(&child.children[0]), content);
        assert_eq!(child.children[0].children.len(), 0);
    }
}

#[test]
fn single_root_is_returned_as_it_is() {
    let root = parsed("<div id='x'>hi</div>");
    let data = as_element(&root);
    assert_eq!(data.tag_name, "div");
    assert_eq!(data.attributes.len(), 1);
    assert_eq!(attribute(&root, "id"), Some("x"));
    assert_eq!(root.children.len(), 1);
    assert_eq!(as_text(&root.children[0]), "hi");
}

#[test]
fn mismatched_closing_tag_fails() {
    let error = failure("<a></b>");
    assert_eq!(error.kind, ParseErrorKind::TagNameMismatch);
    assert_eq!(error.position, 5);
}

#[test]
fn both_quote_characters_delimit_a_value() {
    let double = parsed("<a x=\"1\"></a>");
    let single = parsed("<a x='1'></a>");
    assert_eq!(attribute(&double, "x"), Some("1"));
    assert_eq!(attribute(&single, "x"), Some("1"));
    assert_eq!(as_element(&double).attributes.len(), 1);
    assert_eq!(as_element(&single).attributes.len(), 1);
}

#[test]
fn a_value_closes_with_the_quote_that_opened_it() {
    let error = failure("<a x=\"1'></a>");
    assert_eq!(error, ParseError { kind: ParseErrorKind::ExpectedChar('"'), position: 13 });
    let error = failure("<a x='1\"></a>");
    assert_eq!(error, ParseError { kind: ParseErrorKind::ExpectedChar('\''), position: 13 });
}

#[test]
fn the_other_quote_may_stand_inside_a_value() {
    let root = parsed("<a x=\"it's\" y='say \"hi\"'></a>");
    assert_eq!(attribute(&root, "x"), Some("it's"));
    assert_eq!(attribute(&root, "y"), Some("say \"hi\""));
}

#[test]
fn empty_input_gives_an_empty_html_element() {
    let root = parsed("");
    assert_eq!(as_element(&root).tag_name, "html");
    assert_eq!(as_element(&root).attributes.len(), 0);
    assert_eq!(root.children.len(), 0);
}

#[test]
fn whitespace_alone_gives_an_empty_html_element() {
    let root = parsed(" \n\t ");
    assert_eq!(as_element(&root).tag_name, "html");
    assert_eq!(root.children.len(), 0);
}

#[test]
fn text_alone_is_the_root() {
    let root = parsed("hello world");
    assert_eq!(as_text(&root), "hello world");
    assert_eq!(root.children.len(), 0);
}

#[test]
fn elements_nest() {
    let root = parsed("<a><b><c>deep</c></b><d></d></a>");
    assert_eq!(as_element(&root).tag_name, "a");
    assert_eq!(root.children.len(), 2);
    let b = &root.children[0];
    assert_eq!(as_element(b).tag_name, "b");
    assert_eq!(b.children.len(), 1);
    let c = &b.children[0];
    assert_eq!(as_element(c).tag_name, "c");
    assert_eq!(as_text(&c.children[0]), "deep");
    let d = &root.children[1];
    assert_eq!(as_element(d).tag_name, "d");
    assert_eq!(d.children.len(), 0);
}

#[test]
fn text_and_elements_mix_among_siblings() {
    let root = parsed("<p>one<b>two</b>three</p>");
    assert_eq!(root.children.len(), 3);
    assert_eq!(as_text(&root.children[0]), "one");
    assert_eq!(as_element(&root.children[1]).tag_name, "b");
    assert_eq!(as_text(&root.children[2]), "three");
}

#[test]
fn of_two_attributes_with_one_name_the_later_stays() {
    let root = parsed("<a x='1' y='2' x='3'></a>");
    assert_eq!(as_element(&root).attributes.len(), 2);
    assert_eq!(attribute(&root, "x"), Some("3"));
    assert_eq!(attribute(&root, "y"), Some("2"));
}

#[test]
fn tag_names_are_compared_exactly() {
    let error = failure("<a></A>");
    assert_eq!(error.kind, ParseErrorKind::TagNameMismatch);
    assert_eq!(error.position, 5);
    let error = failure("<ab></a>");
    assert_eq!(error, ParseError { kind: ParseErrorKind::TagNameMismatch, position: 6 });
}

#[test]
fn whitespace_between_siblings_is_dropped() {
    let spaced = parsed("  <p>A</p> \n\t <p>B</p>\n");
    let dense = parsed("<p>A</p><p>B</p>");
    assert_eq!(spaced.children.len(), 2);
    assert_eq!(dense.children.len(), 2);
    for root in [&spaced, &dense] {
        assert_eq!(as_text(&root.children[0].children[0]), "A");
        assert_eq!(as_text(&root.children[1].children[0]), "B");
    }
}

#[test]
fn whitespace_inside_an_element_before_its_children_is_dropped() {
    let root = parsed("<ul>\n  <li>one</li>\n  <li>two</li>\n</ul>");
    assert_eq!(as_element(&root).tag_name, "ul");
    assert_eq!(root.children.len(), 2);
    assert_eq!(as_text(&root.children[0].children[0]), "one");
    assert_eq!(as_text(&root.children[1].children[0]), "two");
}

#[test]
fn whitespace_between_attributes_is_dropped() {
    let spaced = parsed("<a   x='1'\n\ty=\"2\"   ></a>");
    let dense = parsed("<a x='1'y=\"2\"></a>");
    for root in [&spaced, &dense] {
        assert_eq!(as_element(root).tag_name, "a");
        assert_eq!(as_element(root).attributes.len(), 2);
        assert_eq!(attribute(root, "x"), Some("1"));
        assert_eq!(attribute(root, "y"), Some("2"));
    }
}

#[test]
fn whitespace_inside_a_value_and_after_text_stays() {
    let root = parsed("<a x=' 1 '>text \n</a>");
    assert_eq!(attribute(&root, "x"), Some(" 1 "));
    assert_eq!(as_text(&root.children[0]), "text \n");
}

#[test]
fn parsing_twice_gives_the_same_tree() {
    let source = "<div id='x' class='a b'>hi<p>there</p></div>";
    let first = parsed(source);
    let second = parsed(source);
    assert_eq!(as_element(&first).tag_name, as_element(&second).tag_name);
    assert_eq!(attribute(&first, "id"), attribute(&second, "id"));
    assert_eq!(attribute(&first, "class"), attribute(&second, "class"));
    assert_eq!(first.children.len(), second.children.len());
    assert_eq!(as_text(&first.children[0]), as_text(&second.children[0]));
    assert_eq!(
        as_text(&first.children[1].children[0]),
        as_text(&second.children[1].children[0])
    );
}

#[test]
fn a_parser_is_left_as_it_was() {
    let mut parser = Parser::new("abc".to_string());
    assert_eq!(parser.consume_char(), Ok('a'));
    let root = parser.parse("<p>x</p>".to_string());
    assert!(root.is_ok());
    assert_eq!(parser.position(), 1);
    assert_eq!(parser.next_char(), Ok('b'));
}

#[test]
fn well_formed_input_raises_no_boundary_violation() {
    for source in [
        "<a></a>",
        "<a x='1'></a>",
        "<a><b></b></a>",
        "text<a>more</a>text",
        "<a\n x = wrong></a>",
        "<a></b>",
    ] {
        if let Err(error) = parse(source) {
            assert_ne!(error.kind, ParseErrorKind::BoundaryViolation);
        }
    }
    assert!(parse("<a></a>").is_ok());
    assert!(parse("<a x='1'><b>t</b></a>").is_ok());
}

#[test]
fn input_that_ends_inside_an_opening_tag_is_a_boundary_violation() {
    assert_eq!(
        failure("<a"),
        ParseError { kind: ParseErrorKind::BoundaryViolation, position: 2 }
    );
    assert_eq!(
        failure("<a x='1'  "),
        ParseError { kind: ParseErrorKind::BoundaryViolation, position: 10 }
    );
    assert_eq!(
        failure("<a x="),
        ParseError { kind: ParseErrorKind::BoundaryViolation, position: 5 }
    );
}

#[test]
fn a_missing_equals_sign_is_reported_where_it_should_stand() {
    assert_eq!(
        failure("<a x></a>"),
        ParseError { kind: ParseErrorKind::ExpectedChar('='), position: 4 }
    );
    assert_eq!(
        failure("<a x"),
        ParseError { kind: ParseErrorKind::ExpectedChar('='), position: 4 }
    );
}

#[test]
fn an_unquoted_value_is_reported() {
    assert_eq!(
        failure("<a x=1></a>"),
        ParseError { kind: ParseErrorKind::ExpectedQuote, position: 5 }
    );
}

#[test]
fn an_element_that_is_never_closed_is_reported() {
    assert_eq!(
        failure("<a>text"),
        ParseError { kind: ParseErrorKind::ExpectedChar('<'), position: 7 }
    );
    assert_eq!(
        failure("<a><b></b>"),
        ParseError { kind: ParseErrorKind::ExpectedChar('<'), position: 10 }
    );
}

#[test]
fn a_closing_tag_must_end_with_an_angle() {
    assert_eq!(
        failure("<a></a x>"),
        ParseError { kind: ParseErrorKind::ExpectedChar('>'), position: 6 }
    );
    assert_eq!(
        failure("<a></a"),
        ParseError { kind: ParseErrorKind::ExpectedChar('>'), position: 6 }
    );
}

#[test]
fn a_closing_tag_at_the_top_ends_the_document() {
    let root = parsed("</b>");
    assert_eq!(as_element(&root).tag_name, "html");
    assert_eq!(root.children.len(), 0);
    let root = parsed("<a></a></b><c></c>");
    assert_eq!(as_element(&root).tag_name, "a");
}

#[test]
fn names_may_be_empty() {
    let root = parsed("<></>");
    assert_eq!(as_element(&root).tag_name, "");
    let root = parsed("<a ='v'></a>");
    assert_eq!(attribute(&root, ""), Some("v"));
}

#[test]
fn characters_of_several_bytes_are_single_characters() {
    let root = parsed("<p t='ü€'>héllo 世界 🦀</p>");
    assert_eq!(attribute(&root, "t"), Some("ü€"));
    assert_eq!(as_text(&root.children[0]), "héllo 世界 🦀");
}

#[test]
fn positions_are_byte_offsets() {
    assert_eq!(
        failure("é<a></b>"),
        ParseError { kind: ParseErrorKind::TagNameMismatch, position: 7 }
    );
    assert_eq!(
        failure("<a>🦀"),
        ParseError { kind: ParseErrorKind::ExpectedChar('<'), position: 7 }
    );
    assert_eq!(
        failure("<a x='世界"),
        ParseError { kind: ParseErrorKind::ExpectedChar('\''), position: 12 }
    );
}

#[test]
fn whitespace_of_unicode_is_skipped_too() {
    let root = parsed("\u{a0}\u{2003}<a\u{3000}x='1'></a>\u{2028}");
    assert_eq!(as_element(&root).tag_name, "a");
    assert_eq!(attribute(&root, "x"), Some("1"));
}

#[test]
fn only_ascii_letters_and_digits_make_a_name() {
    assert_eq!(
        failure("<é></é>"),
        ParseError { kind: ParseErrorKind::ExpectedChar('='), position: 1 }
    );
    let root = parsed("<h1 data1='x'></h1>");
    assert_eq!(as_element(&root).tag_name, "h1");
    assert_eq!(attribute(&root, "data1"), Some("x"));
}
