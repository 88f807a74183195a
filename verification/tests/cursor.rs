use html_tree::dom::{Node, NodeType};
use html_tree::error::{ParseError, ParseErrorKind};
use html_tree::html_parser::Parser;

fn parser(source: &str) -> Parser {
    Parser::new(source.to_string())
}

fn boundary(position: usize) -> ParseError {
    ParseError { kind: ParseErrorKind::BoundaryViolation, position }
}

fn expected(c: char, position: usize) -> ParseError {
    ParseError { kind: ParseErrorKind::ExpectedChar(c), position }
}

fn text_of(node: &Node) -> &str {
    match &node.node_type {
        NodeType::Text(content) => content.as_str(),
        NodeType::Element(_) => panic!("an element"),
    }
}

fn name_of(node: &Node) -> &str {
    match &node.node_type {
        NodeType::Element(data) => data.tag_name.as_str(),
        NodeType::Text(_) => panic!("text"),
    }
}

#[test]
fn a_new_parser_stands_at_the_start() {
    let p = parser("abc");
    assert_eq!(p.position(), 0);
    assert!(!p.end_reached());
    assert_eq!(p.next_char(), Ok('a'));
    assert!(parser("").end_reached());
}

#[test]
fn peeking_does_not_move_the_cursor() {
    let p = parser("xy");
    assert_eq!(p.next_char(), Ok('x'));
    assert_eq!(p.next_char(), Ok('x'));
    assert_eq!(p.position(), 0);
}

#[test]
fn peeking_at_the_end_is_a_boundary_violation() {
    assert_eq!(parser("").next_char(), Err(boundary(0)));
    let mut p = parser("é");
    assert_eq!(p.consume_char(), Ok('é'));
    assert_eq!(p.next_char(), Err(boundary(2)));
}

#[test]
fn consuming_moves_by_the_width_of_the_character() {
    let mut p = parser("aé世🦀z");
    assert_eq!(p.consume_char(), Ok('a'));
    assert_eq!(p.position(), 1);
    assert_eq!(p.consume_char(), Ok('é'));
    assert_eq!(p.position(), 3);
    assert_eq!(p.consume_char(), Ok('世'));
    assert_eq!(p.position(), 6);
    assert_eq!(p.consume_char(), Ok('🦀'));
    assert_eq!(p.position(), 10);
    assert!(!p.end_reached());
    assert_eq!(p.consume_char(), Ok('z'));
    assert_eq!(p.position(), 11);
    assert!(p.end_reached());
}

#[test]
fn consuming_at_the_end_is_a_boundary_violation_and_moves_nothing() {
    let mut p = parser("a");
    assert_eq!(p.consume_char(), Ok('a'));
    assert_eq!(p.consume_char(), Err(boundary(1)));
    assert_eq!(p.consume_char(), Err(boundary(1)));
    assert_eq!(p.position(), 1);
}

#[test]
fn starts_with_looks_at_the_unread_input() {
    let mut p = parser("é</a>");
    assert!(p.starts_with(""));
    assert!(p.starts_with("é"));
    assert!(p.starts_with("é</"));
    assert!(!p.starts_with("</"));
    assert_eq!(p.consume_char(), Ok('é'));
    assert!(p.starts_with("</"));
    assert!(p.starts_with("</a>"));
    assert!(!p.starts_with("</a> "));
    assert!(!p.starts_with("<a"));
    assert!(!p.starts_with("é"));
    assert_eq!(p.position(), 2);
}

#[test]
fn starts_with_at_the_end_holds_of_the_empty_text_alone() {
    let p = parser("");
    assert!(p.starts_with(""));
    assert!(!p.starts_with("<"));
}

#[test]
fn consume_while_returns_the_run_and_stops_at_the_first_refusal() {
    let mut p = parser("aaabaa");
    assert_eq!(p.consume_while(|c| c == 'a'), "aaa");
    assert_eq!(p.position(), 3);
    assert_eq!(p.next_char(), Ok('b'));
    assert_eq!(p.consume_while(|c| c == 'a'), "");
    assert_eq!(p.position(), 3);
}

#[test]
fn consume_while_stops_at_the_end() {
    let mut p = parser("héllo");
    assert_eq!(p.consume_while(|_| true), "héllo");
    assert_eq!(p.position(), 6);
    assert!(p.end_reached());
    assert_eq!(p.consume_while(|_| true), "");
}

#[test]
fn consume_whitespace_skips_whitespace_alone() {
    let mut p = parser(" \t\r\n\u{a0}\u{2003}x y");
    p.consume_whitespace();
    assert_eq!(p.next_char(), Ok('x'));
    assert_eq!(p.position(), 9);
    p.consume_whitespace();
    assert_eq!(p.position(), 9);
}

#[test]
fn a_tag_name_is_made_of_letters_and_digits() {
    let mut p = parser("h1-title");
    assert_eq!(p.parse_tag_name(), "h1");
    assert_eq!(p.next_char(), Ok('-'));
    assert_eq!(p.parse_tag_name(), "");
    assert_eq!(p.position(), 2);
    let mut p = parser("Div9 x");
    assert_eq!(p.parse_tag_name(), "Div9");
    let mut p = parser("été");
    assert_eq!(p.parse_tag_name(), "");
}

#[test]
fn expect_char_consumes_the_character_or_fails_where_it_stands() {
    let mut p = parser("<a");
    assert_eq!(p.expect_char('<'), Ok(()));
    assert_eq!(p.position(), 1);
    assert_eq!(p.expect_char('>'), Err(expected('>', 1)));
    assert_eq!(p.position(), 1);
    assert_eq!(p.expect_char('a'), Ok(()));
    assert_eq!(p.expect_char('>'), Err(expected('>', 2)));
}

#[test]
fn text_runs_up_to_the_next_angle() {
    let mut p = parser("some text > here <b>");
    let node = p.parse_text();
    assert_eq!(text_of(&node), "some text > here ");
    assert_eq!(node.children.len(), 0);
    assert_eq!(p.next_char(), Ok('<'));
    let node = p.parse_text();
    assert_eq!(text_of(&node), "");
    let mut p = parser("to the end");
    assert_eq!(text_of(&p.parse_text()), "to the end");
    assert!(p.end_reached());
}

#[test]
fn an_attribute_value_stands_between_two_quotes_of_one_kind() {
    let mut p = parser("\"a 'b' c\" rest");
    assert_eq!(p.parse_attribute_value(), Ok("a 'b' c".to_string()));
    assert_eq!(p.next_char(), Ok(' '));
    let mut p = parser("''");
    assert_eq!(p.parse_attribute_value(), Ok(String::new()));
    assert!(p.end_reached());
}

#[test]
fn an_attribute_value_fails_in_three_ways() {
    assert_eq!(parser("").parse_attribute_value(), Err(boundary(0)));
    let mut p = parser("x'");
    assert_eq!(
        p.parse_attribute_value(),
        Err(ParseError { kind: ParseErrorKind::ExpectedQuote, position: 0 })
    );
    assert_eq!(p.position(), 0);
    let mut p = parser("'abc\"");
    assert_eq!(p.parse_attribute_value(), Err(expected('\'', 5)));
    assert_eq!(p.position(), 5);
}

#[test]
fn an_attribute_is_a_name_an_equals_sign_and_a_value() {
    let mut p = parser("href='x y'>");
    assert_eq!(p.parse_attribute(), Ok(("href".to_string(), "x y".to_string())));
    assert_eq!(p.next_char(), Ok('>'));
    assert_eq!(parser("a ='1'").parse_attribute(), Err(expected('=', 1)));
    assert_eq!(
        parser("a= '1'").parse_attribute(),
        Err(ParseError { kind: ParseErrorKind::ExpectedQuote, position: 2 })
    );
}

#[test]
fn attributes_are_read_up_to_the_closing_angle() {
    let mut p = parser("  a='1' b=\"2\"\n>x");
    let attributes = p.parse_attributes().unwrap();
    assert_eq!(attributes.len(), 2);
    assert_eq!(attributes.get("a"), Some(&"1".to_string()));
    assert_eq!(attributes.get("b"), Some(&"2".to_string()));
    assert_eq!(p.next_char(), Ok('>'));
    let mut p = parser(">");
    assert_eq!(p.parse_attributes().unwrap().len(), 0);
    assert_eq!(p.position(), 0);
    let mut p = parser("a='1' ");
    assert_eq!(p.parse_attributes().err(), Some(boundary(6)));
}

#[test]
fn a_node_is_an_element_or_text() {
    let mut p = parser("<a></a>text");
    let node = p.parse_node().unwrap();
    assert_eq!(name_of(&node), "a");
    let node = p.parse_node().unwrap();
    assert_eq!(text_of(&node), "text");
    assert_eq!(p.parse_node().err(), Some(boundary(11)));
}

#[test]
fn an_element_must_begin_with_an_angle() {
    let mut p = parser("a></a>");
    assert_eq!(p.parse_element().err(), Some(expected('<', 0)));
    assert_eq!(p.position(), 0);
    assert_eq!(parser("").parse_element().err(), Some(expected('<', 0)));
}

#[test]
fn an_element_is_read_to_the_end_of_its_closing_tag() {
    let mut p = parser("<a x='1'><b></b>t</a><c>");
    let node = p.parse_element().unwrap();
    assert_eq!(name_of(&node), "a");
    assert_eq!(node.children.len(), 2);
    assert_eq!(name_of(&node.children[0]), "b");
    assert_eq!(text_of(&node.children[1]), "t");
    assert_eq!(p.position(), 21);
    assert!(p.starts_with("<c>"));
}

#[test]
fn a_tag_name_mismatch_leaves_the_cursor_at_the_closing_name() {
    let mut p = parser("<a></bcd>");
    assert_eq!(
        p.parse_element().err(),
        Some(ParseError { kind: ParseErrorKind::TagNameMismatch, position: 5 })
    );
    assert_eq!(p.position(), 5);
    assert!(p.starts_with("bcd>"));
}

#[test]
fn siblings_are_read_up_to_a_closing_tag_or_the_end() {
    let mut p = parser(" <a></a> text <b></b> </x>");
    let nodes = p.parse_nodes().unwrap();
    assert_eq!(nodes.len(), 3);
    assert_eq!(name_of(&nodes[0]), "a");
    assert_eq!(text_of(&nodes[1]), "text ");
    assert_eq!(name_of(&nodes[2]), "b");
    assert!(p.starts_with("</x>"));
    let mut p = parser("  ");
    assert_eq!(p.parse_nodes().unwrap().len(), 0);
    assert!(p.end_reached());
}

#[test]
fn the_kinds_of_failure_are_told_apart() {
    assert!(ParseErrorKind::ExpectedChar('>').is_structural_mismatch());
    assert!(ParseErrorKind::ExpectedQuote.is_structural_mismatch());
    assert!(!ParseErrorKind::BoundaryViolation.is_structural_mismatch());
    assert!(!ParseErrorKind::TagNameMismatch.is_structural_mismatch());
}

#[test]
fn a_quote_that_does_not_match_is_a_structural_mismatch() {
    for source in ["<a x=\"1'></a>", "<a x='1\"></a>"] {
        let error = Parser::new(String::new()).parse(source.to_string()).err().unwrap();
        assert!(error.kind.is_structural_mismatch());
    }
}
