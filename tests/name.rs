use borealis::{Attribute, AttributeName, Dom, ElementName, NodeData};

#[test]
fn attribute_test_new() {
    let name = AttributeName::plain("name");
    let attribute = Attribute::new(name.clone(), "Test".to_string());
    assert_eq!(*attribute.name(), name);
    assert_eq!(attribute.value(), "Test");
}

#[test]
fn comment_test_new() {
    let mut dom = Dom::new();
    let comment = dom.create_comment("Test".to_string());
    match dom.node(comment) {
        NodeData::Comment(text) => assert_eq!(text, "Test"),
        _ => panic!("expected a comment"),
    }
}

#[test]
fn text_test_new() {
    let mut dom = Dom::new();
    let text = dom.create_text("Test".to_string());
    match dom.node(text) {
        NodeData::Text(t) => assert_eq!(t, "Test"),
        _ => panic!("expected a text node"),
    }
}

#[test]
fn html_names_are_in_the_html_namespace() {
    let n = ElementName::html("div");
    assert_eq!(n.ns, "http://www.w3.org/1999/xhtml");
    assert!(n.is_html("div"));
    assert!(!n.is_html("span"));
    let other = ElementName::new("http://www.w3.org/2000/svg".to_string(), "div".to_string());
    assert!(!other.is_html("div"));
    assert!(!n.same(&other));
    assert!(n.same(&n.clone()));
}

#[test]
fn attribute_names_compare_by_parts() {
    let a = AttributeName::plain("id");
    let b = AttributeName::new(String::new(), "id".to_string());
    let c = AttributeName::new("http://www.w3.org/1999/xlink".to_string(), "id".to_string());
    assert!(a.same(&b));
    assert!(!a.same(&c));
}
