use borealis::{
    Attribute, AttributeName, Dom, ElementKind, ElementName, Handle, NodeData, NodeOrText,
    ParentHandle, QuirksMode,
};

fn html(local: &str) -> ElementName {
    ElementName::html(local)
}

fn attr(name: &str, value: &str) -> Attribute {
    Attribute::new(AttributeName::plain(name), value.to_string())
}

fn element(dom: &mut Dom, local: &str) -> Handle {
    dom.create_element(html(local), Vec::new())
}

fn attrs_of(dom: &Dom, h: Handle) -> Vec<(String, String)> {
    match dom.node(h) {
        NodeData::Element(_, attrs, _) => attrs
            .iter()
            .map(|a| (a.name().local.clone(), a.value().clone()))
            .collect(),
        _ => panic!("not an element"),
    }
}

#[test]
fn test_fragment() {
    let mut dom = Dom::new();
    let document = dom.get_document();
    let html_el = element(&mut dom, "html");
    let head = element(&mut dom, "head");
    let body = element(&mut dom, "body");
    let div = element(&mut dom, "div");

    dom.append(document, NodeOrText::AppendNode(html_el));
    dom.append(html_el, NodeOrText::AppendNode(head));
    dom.append(html_el, NodeOrText::AppendNode(body));
    dom.append(html_el, NodeOrText::AppendNode(div));

    let fragment = dom.fragment();
    assert!(fragment.len() == 1);
    assert_eq!(fragment[0], div);
}

#[test]
fn test_get_template_contents() {
    let mut dom = Dom::new();
    let template = element(&mut dom, "template");
    let div = element(&mut dom, "div");
    let document = dom.get_document();

    dom.append(document, NodeOrText::AppendNode(template));
    dom.append(template, NodeOrText::AppendNode(div));

    let contents = dom.get_template_contents(template);
    assert_ne!(contents, template);
    assert_eq!(dom.document_child(contents), Some(div));
    assert_eq!(dom.parent(div), Some(ParentHandle::DocumentHandle(contents)));
}

#[test]
fn test_same_node() {
    let mut dom = Dom::new();

    let handle_a = element(&mut dom, "div");
    let handle_b = element(&mut dom, "p");

    assert!(dom.same_node(handle_a, handle_a));
    assert!(dom.same_node(handle_b, handle_b));
    assert!(!dom.same_node(handle_a, handle_b));
    assert!(!dom.same_node(handle_b, handle_a));
}

#[test]
fn test_elem_name() {
    let mut dom = Dom::new();
    let element = dom.create_element(html("div"), Vec::new());

    let name = dom.elem_name(element);
    assert_eq!(name.ns, "http://www.w3.org/1999/xhtml");
    assert_eq!(name.local, "div");
}

fn do_test_create_element(dom: &mut Dom, local: &str) {
    let attrs = vec![attr("name", "test"), attr("id", "yup")];
    let element = dom.create_element(html(local), attrs);

    match dom.node(element) {
        NodeData::Element(name, elem_attrs, _) => {
            assert_eq!(name.local, local);
            assert_eq!(elem_attrs.len(), 2);
            assert_eq!(elem_attrs[0].name().local, "name");
            assert_eq!(elem_attrs[0].value(), "test");
            assert_eq!(elem_attrs[1].name().local, "id");
            assert_eq!(elem_attrs[1].value(), "yup");
        }
        _ => panic!("created element is not an element"),
    }
    assert!(dom.children(element).is_empty());
    assert!(dom.parent(element).is_none());
}

#[test]
fn test_create_element() {
    let mut dom = Dom::new();

    do_test_create_element(&mut dom, "template");
    do_test_create_element(&mut dom, "html");
}

#[test]
fn test_create_comment() {
    let mut dom = Dom::new();
    let comment = dom.create_comment("sup".to_string());

    match dom.node(comment) {
        NodeData::Comment(text) => assert_eq!(text, "sup"),
        _ => panic!("created comment is not a comment"),
    }
    assert!(dom.parent(comment).is_none());
}

#[test]
fn test_append() {
    let mut dom = Dom::new();
    let document = dom.get_document();
    let html_el = element(&mut dom, "html");
    let body = element(&mut dom, "body");

    dom.append(document, NodeOrText::AppendNode(html_el));
    assert_eq!(dom.parent(html_el), Some(ParentHandle::DocumentHandle(document)));
    assert_eq!(dom.document_child(document), Some(html_el));

    dom.append(html_el, NodeOrText::AppendNode(body));
    assert_eq!(dom.parent(body), Some(ParentHandle::NodeHandle(html_el)));
    assert!(dom.children(html_el).iter().any(|c| *c == body));
}

#[test]
fn test_append_before_sibling() {
    let mut dom = Dom::new();
    let document = dom.get_document();
    let html_el = element(&mut dom, "html");
    let head = element(&mut dom, "head");
    let body = element(&mut dom, "body");

    dom.append(document, NodeOrText::AppendNode(html_el));
    dom.append(html_el, NodeOrText::AppendNode(body));

    assert!(dom.append_before_sibling(body, NodeOrText::AppendNode(head)).is_ok());
    assert_eq!(&dom.children(html_el)[..], &[head, body]);
}

#[test]
fn test_append_doctype_to_document() {
    let mut dom = Dom::new();
    let document = dom.get_document();

    dom.append_doctype_to_document("a".to_string(), "b".to_string(), "c".to_string());

    match dom.node(document) {
        NodeData::Document(Some(doctype)) => {
            assert_eq!(doctype.name, "a");
            assert_eq!(doctype.public_id, "b");
            assert_eq!(doctype.system_id, "c");
        }
        _ => panic!("document has no doctype"),
    }
}

#[test]
fn test_add_attrs_if_missing() {
    let mut dom = Dom::new();
    let html_el = dom.create_element(html("html"), vec![attr("name", "test")]);
    dom.add_attrs_if_missing(html_el, vec![attr("name", "test"), attr("id", "yup")]);

    assert_eq!(
        attrs_of(&dom, html_el),
        vec![
            ("name".to_string(), "test".to_string()),
            ("id".to_string(), "yup".to_string())
        ]
    );
}

#[test]
fn test_remove_from_parent() {
    let mut dom = Dom::new();
    let document = dom.get_document();
    let html_el = element(&mut dom, "html");
    let head = element(&mut dom, "head");
    let body = element(&mut dom, "body");

    dom.append(document, NodeOrText::AppendNode(html_el));
    dom.append(html_el, NodeOrText::AppendNode(head));
    dom.append(html_el, NodeOrText::AppendNode(body));

    dom.remove_from_parent(head);
    assert_eq!(&dom.children(html_el)[..], &[body]);

    dom.remove_from_parent(html_el);
    assert!(dom.document_child(document).is_none());

    dom.append(document, NodeOrText::AppendNode(html_el));
    dom.remove_from_parent(body);
    assert_eq!(dom.document_child(document), Some(html_el));
}

#[test]
fn test_reparent_children() {
    let mut dom = Dom::new();
    let document = dom.get_document();
    let html_el = element(&mut dom, "html");
    let head = element(&mut dom, "head");
    let body = element(&mut dom, "body");
    let target = element(&mut dom, "div");

    dom.append(document, NodeOrText::AppendNode(html_el));
    dom.append(html_el, NodeOrText::AppendNode(head));
    dom.append(html_el, NodeOrText::AppendNode(body));

    dom.reparent_children(html_el, target);
    assert!(dom.children(html_el).is_empty());
    assert_eq!(&dom.children(target)[..], &[head, body]);

    dom.reparent_children(target, html_el);
    dom.reparent_children(document, target);
    assert!(dom.document_child(document).is_none());
    assert_eq!(&dom.children(target)[..], &[html_el]);
}

#[test]
fn back_references_follow_every_move() {
    let mut dom = Dom::new();
    let document = dom.get_document();
    let root = element(&mut dom, "html");
    let a = element(&mut dom, "div");
    let b = element(&mut dom, "p");
    let x = element(&mut dom, "span");

    dom.append(document, NodeOrText::AppendNode(root));
    dom.append(root, NodeOrText::AppendNode(a));
    dom.append(root, NodeOrText::AppendNode(b));
    dom.append(a, NodeOrText::AppendNode(x));
    assert_eq!(dom.parent(x), Some(ParentHandle::NodeHandle(a)));

    dom.remove_from_parent(x);
    assert_eq!(dom.parent(x), None);
    assert!(dom.children(a).is_empty());

    dom.append(b, NodeOrText::AppendNode(x));
    assert_eq!(dom.parent(x), Some(ParentHandle::NodeHandle(b)));
    assert_eq!(&dom.children(b)[..], &[x]);
    assert!(dom.children(a).is_empty());

    dom.reparent_children(b, a);
    assert_eq!(dom.parent(x), Some(ParentHandle::NodeHandle(a)));
    assert!(dom.children(b).is_empty());
}

#[test]
fn insert_before_middle_sibling_keeps_order() {
    let mut dom = Dom::new();
    let p = element(&mut dom, "div");
    let a = element(&mut dom, "a");
    let s = element(&mut dom, "b");
    let c = element(&mut dom, "i");
    let x = element(&mut dom, "em");
    dom.append(p, NodeOrText::AppendNode(a));
    dom.append(p, NodeOrText::AppendNode(s));
    dom.append(p, NodeOrText::AppendNode(c));

    assert!(dom.append_before_sibling(s, NodeOrText::AppendNode(x)).is_ok());
    assert_eq!(&dom.children(p)[..], &[a, x, s, c]);
    assert_eq!(dom.parent(x), Some(ParentHandle::NodeHandle(p)));
}

#[test]
fn insert_text_before_sibling_makes_text_node() {
    let mut dom = Dom::new();
    let p = element(&mut dom, "div");
    let s = element(&mut dom, "b");
    dom.append(p, NodeOrText::AppendNode(s));

    assert!(dom.append_before_sibling(s, NodeOrText::AppendText("hi".to_string())).is_ok());
    let children = dom.children(p).clone();
    assert_eq!(children.len(), 2);
    assert_eq!(children[1], s);
    match dom.node(children[0]) {
        NodeData::Text(t) => assert_eq!(t, "hi"),
        _ => panic!("expected a text node"),
    }
}

#[test]
fn insert_before_detached_sibling_hands_child_back() {
    let mut dom = Dom::new();
    let s = element(&mut dom, "b");
    let x = element(&mut dom, "i");
    let count = dom.node_count();

    match dom.append_before_sibling(s, NodeOrText::AppendNode(x)) {
        Err(NodeOrText::AppendNode(back)) => assert_eq!(back, x),
        _ => panic!("expected the child back"),
    }
    match dom.append_before_sibling(s, NodeOrText::AppendText("t".to_string())) {
        Err(NodeOrText::AppendText(t)) => assert_eq!(t, "t"),
        _ => panic!("expected the text back"),
    }
    assert_eq!(dom.node_count(), count);
    assert!(dom.parent(x).is_none());
}

#[test]
fn remove_then_append_leaves_one_entry() {
    let mut dom = Dom::new();
    let p = element(&mut dom, "div");
    let x = element(&mut dom, "span");
    dom.append(p, NodeOrText::AppendNode(x));
    dom.remove_from_parent(x);
    dom.append(p, NodeOrText::AppendNode(x));

    assert_eq!(&dom.children(p)[..], &[x]);
    assert_eq!(dom.parent(x), Some(ParentHandle::NodeHandle(p)));
}

#[test]
fn reparent_appends_after_existing_children() {
    let mut dom = Dom::new();
    let a = element(&mut dom, "div");
    let b = element(&mut dom, "section");
    let a1 = element(&mut dom, "p");
    let a2 = element(&mut dom, "span");
    let b1 = element(&mut dom, "em");
    dom.append(a, NodeOrText::AppendNode(a1));
    dom.append(a, NodeOrText::AppendNode(a2));
    dom.append(b, NodeOrText::AppendNode(b1));

    dom.reparent_children(a, b);
    assert!(dom.children(a).is_empty());
    assert_eq!(&dom.children(b)[..], &[b1, a1, a2]);
    assert_eq!(dom.parent(a1), Some(ParentHandle::NodeHandle(b)));
    assert_eq!(dom.parent(a2), Some(ParentHandle::NodeHandle(b)));
}

#[test]
fn reparent_from_empty_changes_nothing() {
    let mut dom = Dom::new();
    let a = element(&mut dom, "div");
    let b = element(&mut dom, "section");
    let b1 = element(&mut dom, "em");
    dom.append(b, NodeOrText::AppendNode(b1));

    dom.reparent_children(a, b);
    assert!(dom.children(a).is_empty());
    assert_eq!(&dom.children(b)[..], &[b1]);
}

#[test]
fn first_attribute_value_wins() {
    let mut dom = Dom::new();
    let el = dom.create_element(html("div"), vec![attr("id", "a")]);
    dom.add_attrs_if_missing(el, vec![attr("id", "b"), attr("class", "c")]);

    assert_eq!(
        attrs_of(&dom, el),
        vec![
            ("id".to_string(), "a".to_string()),
            ("class".to_string(), "c".to_string())
        ]
    );
}

#[test]
fn attribute_namespace_is_part_of_the_name() {
    let mut dom = Dom::new();
    let el = dom.create_element(html("svg"), vec![attr("href", "a")]);
    let xlink = Attribute::new(
        AttributeName::new("http://www.w3.org/1999/xlink".to_string(), "href".to_string()),
        "b".to_string(),
    );
    dom.add_attrs_if_missing(el, vec![xlink]);
    assert_eq!(attrs_of(&dom, el).len(), 2);
}

#[test]
fn template_children_go_to_its_contents() {
    let mut dom = Dom::new();
    let template = element(&mut dom, "template");
    let p = element(&mut dom, "p");
    dom.append(template, NodeOrText::AppendNode(p));

    assert!(dom.children(template).is_empty());
    let contents = dom.get_template_contents(template);
    assert_eq!(&dom.children(contents)[..], &[p]);
    assert_eq!(dom.parent(contents), Some(ParentHandle::NodeHandle(template)));
    match dom.node(template) {
        NodeData::Element(_, _, ElementKind::Template(d)) => assert_eq!(*d, contents),
        _ => panic!("expected a template"),
    }
}

#[test]
fn same_node_is_identity_not_likeness() {
    let mut dom = Dom::new();
    let a = element(&mut dom, "div");
    let b = element(&mut dom, "div");
    let a_again = a;

    assert!(!dom.same_node(a, b));
    assert!(dom.same_node(a, a_again));
}

#[test]
fn script_flag_is_set_only_on_scripts() {
    let mut dom = Dom::new();
    let script = element(&mut dom, "script");
    let div = element(&mut dom, "div");

    match dom.node(script) {
        NodeData::Element(_, _, ElementKind::Script(started)) => assert!(!*started),
        _ => panic!("expected a script"),
    }
    dom.mark_script_already_started(script);
    dom.mark_script_already_started(div);
    match dom.node(script) {
        NodeData::Element(_, _, ElementKind::Script(started)) => assert!(*started),
        _ => panic!("expected a script"),
    }
    match dom.node(div) {
        NodeData::Element(_, _, ElementKind::Normal) => {}
        _ => panic!("expected a normal element"),
    }
}

#[test]
fn errors_and_quirks_are_recorded() {
    let mut dom = Dom::new();
    assert_eq!(dom.quirks_mode(), QuirksMode::NoQuirks);
    dom.set_quirks_mode(QuirksMode::LimitedQuirks);
    assert_eq!(dom.quirks_mode(), QuirksMode::LimitedQuirks);

    dom.parse_error("first".to_string());
    dom.parse_error("second".to_string());
    assert_eq!(dom.errors(), &vec!["first".to_string(), "second".to_string()]);
}

#[test]
fn appended_text_becomes_a_text_node() {
    let mut dom = Dom::new();
    let p = element(&mut dom, "p");
    dom.append(p, NodeOrText::AppendText("Hi".to_string()));
    let t = dom.children(p)[0];
    match dom.node(t) {
        NodeData::Text(s) => assert_eq!(s, "Hi"),
        _ => panic!("expected a text node"),
    }
    assert_eq!(dom.parent(t), Some(ParentHandle::NodeHandle(p)));
}

#[test]
fn ancestry_follows_containers() {
    let mut dom = Dom::new();
    let document = dom.get_document();
    let root = element(&mut dom, "html");
    let template = element(&mut dom, "template");
    let p = element(&mut dom, "p");
    dom.append(document, NodeOrText::AppendNode(root));
    dom.append(root, NodeOrText::AppendNode(template));
    dom.append(template, NodeOrText::AppendNode(p));

    assert!(dom.is_ancestor_or_self(root, p));
    assert!(dom.is_ancestor_or_self(template, p));
    assert!(dom.is_ancestor_or_self(document, p));
    assert!(dom.is_ancestor_or_self(p, p));
    assert!(!dom.is_ancestor_or_self(p, root));
}

#[test]
fn append_based_on_parent_node_picks_the_right_place() {
    let mut dom = Dom::new();
    let table = element(&mut dom, "table");
    let prev = element(&mut dom, "div");
    let text_holder = element(&mut dom, "body");
    dom.append(text_holder, NodeOrText::AppendNode(table));

    let a = element(&mut dom, "b");
    dom.append_based_on_parent_node(table, prev, NodeOrText::AppendNode(a));
    assert_eq!(&dom.children(text_holder)[..], &[a, table]);

    dom.remove_from_parent(table);
    let c = element(&mut dom, "i");
    dom.append_based_on_parent_node(table, prev, NodeOrText::AppendNode(c));
    assert_eq!(&dom.children(prev)[..], &[c]);
}

#[test]
fn first_candidate_of_a_new_name_wins() {
    let mut dom = Dom::new();
    let el = dom.create_element(html("div"), Vec::new());
    dom.add_attrs_if_missing(el, vec![attr("class", "x"), attr("class", "y"), attr("id", "z")]);

    assert_eq!(
        attrs_of(&dom, el),
        vec![
            ("class".to_string(), "x".to_string()),
            ("id".to_string(), "z".to_string())
        ]
    );
}

#[test]
fn reparent_without_children_is_a_no_op() {
    let mut dom = Dom::new();
    let a = element(&mut dom, "div");
    dom.reparent_children(a, a);
    assert!(dom.children(a).is_empty());
}
