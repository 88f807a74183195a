use html_tree::dom::{element, text, AttributeMap, ElementData, NodeType};

fn element_data(attributes: &[(&str, &str)]) -> ElementData {
    let mut map = AttributeMap::new();
    for (name, value) in attributes {
        map.insert(name.to_string(), value.to_string());
    }
    ElementData { tag_name: "div".to_string(), attributes: map }
}

fn classes_of(list: &str) -> Vec<String> {
    let data = element_data(&[("class", list)]);
    let classes = data.classes();
    let mut found = Vec::new();
    for candidate in ["", "a", "b", "c", "a b", "a b c", " ", "ab"] {
        if classes.contains(candidate) {
            found.push(candidate.to_string());
        }
    }
    assert_eq!(found.len(), classes.len());
    found
}

#[test]
fn id_and_classes_are_read_from_the_attributes() {
    let data = element_data(&[("id", "main"), ("class", "a b c")]);
    assert_eq!(data.id(), Some(&"main".to_string()));
    let classes = data.classes();
    assert_eq!(classes.len(), 3);
    assert!(classes.contains("a"));
    assert!(classes.contains("b"));
    assert!(classes.contains("c"));
    assert!(!classes.contains("a b c"));
}

#[test]
fn an_element_without_an_id_has_none() {
    assert_eq!(element_data(&[]).id(), None);
    assert_eq!(element_data(&[("class", "id")]).id(), None);
    assert_eq!(element_data(&[("ID", "x")]).id(), None);
}

#[test]
fn an_empty_id_is_an_id() {
    assert_eq!(element_data(&[("id", "")]).id(), Some(&String::new()));
}

#[test]
fn an_element_without_a_class_attribute_has_no_classes() {
    let data = element_data(&[("id", "main")]);
    let classes = data.classes();
    assert_eq!(classes.len(), 0);
    assert!(classes.is_empty());
    assert!(!classes.contains(""));
}

#[test]
fn one_class_is_one_class() {
    assert_eq!(classes_of("a"), vec!["a"]);
}

#[test]
fn a_class_occurs_once_however_often_it_is_named() {
    assert_eq!(classes_of("a b a b a"), vec!["a", "b"]);
}

#[test]
fn two_spaces_in_a_row_give_the_empty_class() {
    assert_eq!(classes_of("a  b"), vec!["", "a", "b"]);
}

#[test]
fn a_space_at_either_end_gives_the_empty_class() {
    assert_eq!(classes_of(" a"), vec!["", "a"]);
    assert_eq!(classes_of("a "), vec!["", "a"]);
    assert_eq!(classes_of(" "), vec![""]);
}

#[test]
fn an_empty_class_attribute_gives_the_empty_class() {
    assert_eq!(classes_of(""), vec![""]);
}

#[test]
fn classes_are_split_on_the_space_alone() {
    let data = element_data(&[("class", "a\tb\nc\u{a0}d e")]);
    let classes = data.classes();
    assert_eq!(classes.len(), 2);
    assert!(classes.contains("a\tb\nc\u{a0}d"));
    assert!(classes.contains("e"));
}

#[test]
fn a_text_node_holds_its_text_and_no_children() {
    let node = text("some <text>".to_string());
    assert_eq!(node.children.len(), 0);
    match node.node_type {
        NodeType::Text(content) => assert_eq!(content, "some <text>"),
        NodeType::Element(_) => panic!("an element"),
    }
}

#[test]
fn an_element_node_holds_what_it_was_given() {
    let mut attributes = AttributeMap::new();
    attributes.insert("k".to_string(), "v".to_string());
    let children = vec![text("one".to_string()), element("b".to_string(), AttributeMap::new(), Vec::new())];
    let node = element("not a name!".to_string(), attributes, children);
    assert_eq!(node.children.len(), 2);
    match &node.node_type {
        NodeType::Element(data) => {
            assert_eq!(data.tag_name, "not a name!");
            assert_eq!(data.attributes.len(), 1);
            assert_eq!(data.attributes.get("k"), Some(&"v".to_string()));
        },
        NodeType::Text(_) => panic!("text"),
    }
    match &node.children[0].node_type {
        NodeType::Text(content) => assert_eq!(content, "one"),
        NodeType::Element(_) => panic!("an element"),
    }
    match &node.children[1].node_type {
        NodeType::Element(data) => assert_eq!(data.tag_name, "b"),
        NodeType::Text(_) => panic!("text"),
    }
}

#[test]
fn parsed_attributes_are_read_by_id_and_classes() {
    let root = html_tree::html_parser::Parser::new(String::new())
        .parse("<div id=\"main\" class='a b c'></div>".to_string())
        .unwrap();
    match &root.node_type {
        NodeType::Element(data) => {
            assert_eq!(data.id(), Some(&"main".to_string()));
            let classes = data.classes();
            assert_eq!(classes.len(), 3);
            assert!(classes.contains("a") && classes.contains("b") && classes.contains("c"));
        },
        NodeType::Text(_) => panic!("text"),
    }
}
