use std::borrow::Cow;
use std::cell::RefCell;

use borealis::{
    Attribute, AttributeName, Dom, ElementKind, ElementName, Handle, NodeData, NodeOrText,
    QuirksMode,
};
use html5ever::tendril::{StrTendril, TendrilSink};
use html5ever::tree_builder::{
    ElemName, ElementFlags, NodeOrText as SinkNodeOrText, QuirksMode as SinkQuirksMode, TreeSink,
};
use html5ever::{parse_document, parse_fragment, LocalName, Namespace, ParseOpts, QualName};

/// The library's name for an html5ever element name.
pub fn element_name(q: &QualName) -> ElementName {
    ElementName::new(q.ns.to_string(), q.local.to_string())
}

/// html5ever's name for a library element name.
pub fn qual_name(n: &ElementName) -> QualName {
    QualName::new(None, Namespace::from(&n.ns[..]), LocalName::from(&n.local[..]))
}

/// The library's attribute for an html5ever attribute.
pub fn attribute(a: html5ever::Attribute) -> Attribute {
    Attribute::new(
        AttributeName::new(a.name.ns.to_string(), a.name.local.to_string()),
        a.value.to_string(),
    )
}

fn quirks_mode(mode: SinkQuirksMode) -> QuirksMode {
    match mode {
        SinkQuirksMode::NoQuirks => QuirksMode::NoQuirks,
        SinkQuirksMode::LimitedQuirks => QuirksMode::LimitedQuirks,
        SinkQuirksMode::Quirks => QuirksMode::Quirks,
    }
}

fn node_or_text(child: SinkNodeOrText<Handle>) -> NodeOrText {
    match child {
        SinkNodeOrText::AppendNode(h) => NodeOrText::AppendNode(h),
        SinkNodeOrText::AppendText(t) => NodeOrText::AppendText(t.to_string()),
    }
}

/// An element name that html5ever can read back.
#[derive(Debug)]
pub struct OwnedName(QualName);

impl ElemName for OwnedName {
    fn ns(&self) -> &Namespace {
        &self.0.ns
    }

    fn local_name(&self) -> &LocalName {
        &self.0.local
    }
}

/// The tree builder's view of a `Dom`.
pub struct Sink {
    dom: RefCell<Dom>,
}

impl Sink {
    pub fn new() -> Sink {
        Sink { dom: RefCell::new(Dom::new()) }
    }
}

impl Default for Sink {
    fn default() -> Sink {
        Sink::new()
    }
}

fn has_room(dom: &Dom) {
    assert!(dom.node_count() < usize::MAX - 3, "too many nodes");
}

fn is_template(dom: &Dom, h: Handle) -> bool {
    matches!(dom.node(h), NodeData::Element(_, _, ElementKind::Template(_)))
}

/// Where an insertion into `parent` lands, checked to be able to take a child.
fn checked_target(dom: &Dom, parent: Handle) -> Handle {
    let target = if is_template(dom, parent) { dom.get_template_contents(parent) } else { parent };
    match dom.node(target) {
        NodeData::Document(_) => {
            assert!(dom.document_child(target).is_none(), "document already has a child")
        }
        NodeData::Element(..) => {}
        _ => panic!("expected document or element"),
    }
    target
}

/// Checks that `child` may be put into `container`.
fn check_child(dom: &Dom, container: Handle, child: &NodeOrText) {
    if let NodeOrText::AppendNode(c) = child {
        assert!(!matches!(dom.node(*c), NodeData::Document(_)), "a document cannot be a child");
        assert!(dom.parent(*c).is_none(), "node already has a parent");
        assert!(!dom.is_ancestor_or_self(*c, container), "node would hold itself");
    }
}

impl TreeSink for Sink {
    type Handle = Handle;
    type Output = Dom;
    type ElemName<'a> = OwnedName;

    fn finish(self) -> Dom {
        self.dom.into_inner()
    }

    fn parse_error(&self, msg: Cow<'static, str>) {
        self.dom.borrow_mut().parse_error(msg.to_string());
    }

    fn get_document(&self) -> Handle {
        self.dom.borrow().get_document()
    }

    fn elem_name<'a>(&'a self, target: &'a Handle) -> OwnedName {
        let dom = self.dom.borrow();
        assert!(matches!(dom.node(*target), NodeData::Element(..)), "expected element");
        OwnedName(qual_name(dom.elem_name(*target)))
    }

    fn create_element(&self, name: QualName, attrs: Vec<html5ever::Attribute>, _: ElementFlags) -> Handle {
        let mut dom = self.dom.borrow_mut();
        has_room(&dom);
        dom.create_element(element_name(&name), attrs.into_iter().map(attribute).collect())
    }

    fn create_comment(&self, text: StrTendril) -> Handle {
        let mut dom = self.dom.borrow_mut();
        has_room(&dom);
        dom.create_comment(text.to_string())
    }

    // HTML has no processing instructions; what one would hold is kept as a comment.
    fn create_pi(&self, target: StrTendril, data: StrTendril) -> Handle {
        let mut dom = self.dom.borrow_mut();
        has_room(&dom);
        dom.create_comment(format!("?{} {}", target, data))
    }

    fn append(&self, parent: &Handle, child: SinkNodeOrText<Handle>) {
        let mut dom = self.dom.borrow_mut();
        has_room(&dom);
        let child = node_or_text(child);
        checked_target(&dom, *parent);
        check_child(&dom, *parent, &child);
        dom.append(*parent, child);
    }

    fn append_based_on_parent_node(
        &self,
        element: &Handle,
        prev_element: &Handle,
        child: SinkNodeOrText<Handle>,
    ) {
        let mut dom = self.dom.borrow_mut();
        has_room(&dom);
        assert!(!matches!(dom.node(*element), NodeData::Document(_)), "expected a node");
        let child = node_or_text(child);
        match dom.parent(*element) {
            Some(ph) => {
                let parent = ph.target();
                assert!(!matches!(dom.node(parent), NodeData::Document(_)), "expected element");
                check_child(&dom, parent, &child);
            }
            None => {
                checked_target(&dom, *prev_element);
                check_child(&dom, *prev_element, &child);
            }
        }
        dom.append_based_on_parent_node(*element, *prev_element, child);
    }

    fn append_doctype_to_document(&self, name: StrTendril, public_id: StrTendril, system_id: StrTendril) {
        self.dom.borrow_mut().append_doctype_to_document(
            name.to_string(),
            public_id.to_string(),
            system_id.to_string(),
        );
    }

    fn mark_script_already_started(&self, node: &Handle) {
        self.dom.borrow_mut().mark_script_already_started(*node);
    }

    fn get_template_contents(&self, target: &Handle) -> Handle {
        let dom = self.dom.borrow();
        assert!(is_template(&dom, *target), "expected template element");
        dom.get_template_contents(*target)
    }

    fn same_node(&self, x: &Handle, y: &Handle) -> bool {
        self.dom.borrow().same_node(*x, *y)
    }

    fn set_quirks_mode(&self, mode: SinkQuirksMode) {
        self.dom.borrow_mut().set_quirks_mode(quirks_mode(mode));
    }

    fn append_before_sibling(&self, sibling: &Handle, new_node: SinkNodeOrText<Handle>) {
        let mut dom = self.dom.borrow_mut();
        has_room(&dom);
        assert!(!matches!(dom.node(*sibling), NodeData::Document(_)), "expected a node");
        let child = node_or_text(new_node);
        // html5ever may hand over a node that still has a container.
        if let NodeOrText::AppendNode(c) = &child {
            assert!(!matches!(dom.node(*c), NodeData::Document(_)), "a document cannot be a child");
            if dom.parent(*c).is_some() {
                dom.remove_from_parent(*c);
            }
        }
        if let Some(ph) = dom.parent(*sibling) {
            let parent = ph.target();
            assert!(!matches!(dom.node(parent), NodeData::Document(_)), "expected element");
            check_child(&dom, parent, &child);
        }
        // A sibling with no container leaves nowhere to insert.
        let _ = dom.append_before_sibling(*sibling, child);
    }

    fn add_attrs_if_missing(&self, target: &Handle, attrs: Vec<html5ever::Attribute>) {
        let mut dom = self.dom.borrow_mut();
        assert!(matches!(dom.node(*target), NodeData::Element(..)), "expected element");
        dom.add_attrs_if_missing(*target, attrs.into_iter().map(attribute).collect());
    }

    fn remove_from_parent(&self, target: &Handle) {
        let mut dom = self.dom.borrow_mut();
        assert!(!matches!(dom.node(*target), NodeData::Document(_)), "expected a node");
        assert!(dom.parent(*target).is_some(), "node has no parent");
        dom.remove_from_parent(*target);
    }

    fn reparent_children(&self, node: &Handle, new_parent: &Handle) {
        let mut dom = self.dom.borrow_mut();
        if !dom.children(*node).is_empty() {
            let target = if is_template(&dom, *new_parent) {
                dom.get_template_contents(*new_parent)
            } else {
                *new_parent
            };
            match dom.node(target) {
                NodeData::Document(_) => assert!(
                    dom.children(target).len() + dom.children(*node).len() <= 1,
                    "document already has a child"
                ),
                NodeData::Element(..) => {}
                _ => panic!("expected document or element"),
            }
            assert!(target != *node, "cannot move children into their own container");
            assert!(!dom.is_ancestor_or_self(*node, *new_parent), "node would hold itself");
        }
        dom.reparent_children(*node, *new_parent);
    }
}

fn parse_doc(s: &str) -> Dom {
    parse_document(Sink::new(), ParseOpts::default()).from_utf8().one(s.as_bytes())
}

fn parse_frag(s: &str) -> (Dom, Vec<Handle>) {
    let context = QualName::new(
        None,
        Namespace::from("http://www.w3.org/1999/xhtml"),
        LocalName::from("body"),
    );
    let dom = parse_fragment(Sink::new(), ParseOpts::default(), context, Vec::new(), false)
        .from_utf8()
        .one(s.as_bytes());
    let nodes = dom.fragment();
    (dom, nodes)
}

fn to_html(dom: &Dom) -> String {
    String::from_utf8(borealis::serialize(dom, dom.get_document()).unwrap()).unwrap()
}

/// A plain value of a subtree, for comparing trees.
#[derive(Debug, PartialEq)]
enum Tree {
    Text(String),
    Comment(String),
    Element(String, Vec<(String, String)>, Vec<Tree>),
}

fn tree(dom: &Dom, h: Handle) -> Tree {
    match dom.node(h) {
        NodeData::Text(t) => Tree::Text(t.clone()),
        NodeData::Comment(t) => Tree::Comment(t.clone()),
        NodeData::Element(name, attrs, kind) => {
            let holder = match kind {
                ElementKind::Template(d) => *d,
                _ => h,
            };
            let children = dom.children(holder).iter().map(|c| tree(dom, *c)).collect();
            let attrs = attrs
                .iter()
                .map(|a| (a.name().local.clone(), a.value().clone()))
                .collect();
            Tree::Element(name.local.clone(), attrs, children)
        }
        NodeData::Document(_) => panic!("unexpected document"),
    }
}

fn doctype_name(dom: &Dom) -> Option<String> {
    match dom.node(dom.get_document()) {
        NodeData::Document(Some(d)) => Some(d.name.clone()),
        _ => None,
    }
}

fn el(name: &str, attrs: Vec<(&str, &str)>, children: Vec<Tree>) -> Tree {
    Tree::Element(
        name.to_string(),
        attrs.into_iter().map(|(a, b)| (a.to_string(), b.to_string())).collect(),
        children,
    )
}

fn txt(s: &str) -> Tree {
    Tree::Text(s.to_string())
}

const DOCUMENT: &str = "<!DOCTYPE html>\
     <html lang=\"en\">\
        <head>\
            <title>Test</title>\
        </head>\
        <body>\
            <h1>Document</h1>\
            <img src=\"test.flif\" alt=\"test\">\
        </body>\
     </html>";

#[test]
fn test_parse_document() {
    let dom = parse_doc(DOCUMENT);
    let root = dom.document_child(dom.get_document()).unwrap();

    let title = el("title", vec![], vec![txt("Test")]);
    let head = el("head", vec![], vec![title]);
    let h1 = el("h1", vec![], vec![txt("Document")]);
    let img = el("img", vec![("src", "test.flif"), ("alt", "test")], vec![]);
    let body = el("body", vec![], vec![h1, img]);
    let html = el("html", vec![("lang", "en")], vec![head, body]);
    assert_eq!(doctype_name(&dom), Some("html".to_string()));
    assert_eq!(tree(&dom, root), html);
}

#[test]
fn test_parse_str() {
    let (dom, nodes) = parse_frag(r#"<div id="test">Hello!</div>"#);
    let trees: Vec<Tree> = nodes.iter().map(|h| tree(&dom, *h)).collect();
    assert_eq!(trees, vec![el("div", vec![("id", "test")], vec![txt("Hello!")])]);

    let (dom, nodes) = parse_frag("<br>test!");
    let trees: Vec<Tree> = nodes.iter().map(|h| tree(&dom, *h)).collect();
    assert_eq!(trees, vec![el("br", vec![], vec![]), txt("test!")]);
}

#[test]
fn round_trip_keeps_the_tree() {
    let input = "<!DOCTYPE html><html><body><p>Hi</p></body></html>";
    let first = parse_doc(input);
    let written = to_html(&first);
    assert_eq!(written, "<!DOCTYPE html><html><head></head><body><p>Hi</p></body></html>");
    let second = parse_doc(&written);

    assert_eq!(doctype_name(&first), doctype_name(&second));
    let r1 = first.document_child(first.get_document()).unwrap();
    let r2 = second.document_child(second.get_document()).unwrap();
    assert_eq!(tree(&first, r1), tree(&second, r2));
    assert_eq!(
        tree(&second, r2),
        el("html", vec![], vec![el("head", vec![], vec![]), el("body", vec![], vec![el("p", vec![], vec![txt("Hi")])])])
    );
}

#[test]
fn parsed_template_content_lives_in_its_document() {
    let dom = parse_doc("<!DOCTYPE html><html><head><template><p>x</p></template></head></html>");
    let root = dom.document_child(dom.get_document()).unwrap();
    let head = dom.children(root)[0];
    let template = dom.children(head)[0];
    assert!(dom.children(template).is_empty());
    let contents = dom.get_template_contents(template);
    let p = dom.document_child(contents).unwrap();
    assert_eq!(tree(&dom, p), el("p", vec![], vec![txt("x")]));
}

#[test]
fn parse_errors_are_collected() {
    let dom = parse_doc("<p>no doctype</p>");
    assert!(!dom.errors().is_empty());
    assert_eq!(dom.quirks_mode(), QuirksMode::Quirks);
}
