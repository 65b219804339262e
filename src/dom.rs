//! The document tree and the sink that builds it.
//!
//! Every node lives in an arena owned by [`Dom`]; a [`Handle`] names one slot
//! of that arena, so two handles are the same node exactly when they name the
//! same slot. A container (a document, or an element) owns the list of its
//! children, and each child keeps a back-reference to the container that holds
//! it. A template element owns a separate document, its contents, which keeps
//! a back-reference to the template.

use vstd::prelude::*;
use crate::name::{Attribute, ElementName, add_missing_attrs, merged_attrs};

verus! {

/// A reference to one node of a [`Dom`]. Copies of a handle all name the same node.
#[derive(Clone, Copy, PartialEq, Eq, Structural, Debug)]
pub struct Handle {
    id: usize,
}

impl Handle {
    /// The arena slot this handle names.
    pub closed spec fn index(self) -> int {
        self.id as int
    }
}

/// A back-reference from a node to the container that holds it, tagged with
/// the kind of that container.
#[derive(Clone, Copy, PartialEq, Eq, Structural, Debug)]
pub enum ParentHandle {
    DocumentHandle(Handle),
    NodeHandle(Handle),
}

impl ParentHandle {
    pub open spec fn handle(self) -> Handle {
        match self {
            ParentHandle::DocumentHandle(h) => h,
            ParentHandle::NodeHandle(h) => h,
        }
    }

    /// The container this back-reference points into.
    pub fn target(&self) -> (r: Handle)
        ensures
            r == self.handle(),
    {
        match self {
            ParentHandle::DocumentHandle(h) => *h,
            ParentHandle::NodeHandle(h) => *h,
        }
    }
}

/// The document type declaration.
pub struct Doctype {
    pub name: String,
    pub public_id: String,
    pub system_id: String,
}

impl Doctype {
    pub fn new(name: String, public_id: String, system_id: String) -> (r: Doctype)
        ensures
            r.name == name,
            r.public_id == public_id,
            r.system_id == system_id,
    {
        Doctype { name, public_id, system_id }
    }

    /// The declaration `<!DOCTYPE html>`: name `html`, no public or system id.
    pub fn new_html5() -> (r: Doctype)
        ensures
            r.name@ == "html"@,
            r.public_id@.len() == 0,
            r.system_id@.len() == 0,
    {
        Doctype { name: String::from_str("html"), public_id: String::new(), system_id: String::new() }
    }
}

/// The three quirks modes a document can be in.
#[derive(Clone, Copy, PartialEq, Eq, Structural, Debug)]
pub enum QuirksMode {
    NoQuirks,
    LimitedQuirks,
    Quirks,
}

/// What distinguishes elements beyond their name and attributes.
pub enum ElementKind {
    /// An element whose children are held in its own child list.
    Normal,
    /// A template: its content lives in the given separate document.
    Template(Handle),
    /// A script element, with its "already started" flag.
    Script(bool),
}

/// The payload of a node.
pub enum NodeData {
    Document(Option<Doctype>),
    Comment(String),
    Text(String),
    Element(ElementName, Vec<Attribute>, ElementKind),
}

/// What the driver hands to an insertion: a node, or raw text that becomes a
/// new text node.
pub enum NodeOrText {
    AppendNode(Handle),
    AppendText(String),
}

/// One call to a serializer's writer, naming the node whose markup it writes.
#[derive(Clone, Copy, PartialEq, Eq, Structural, Debug)]
pub enum WriteCall {
    /// The start tag of an element, with its attributes in order.
    StartElem(Handle),
    /// The end tag of an element.
    EndElem(Handle),
    /// The payload of a text node.
    Text(Handle),
    /// The payload of a comment.
    Comment(Handle),
    /// The doctype declaration of a document.
    Doctype(Handle),
}

struct Entry {
    data: NodeData,
    parent: Option<ParentHandle>,
    children: Vec<Handle>,
}

/// The tree, together with the session state of the sink: the document,
/// the parse errors reported so far and the quirks mode.
pub struct Dom {
    nodes: Vec<Entry>,
    document: Handle,
    errors: Vec<String>,
    quirks_mode: QuirksMode,
    /// Strictly larger for a container than for anything it holds: the
    /// witness that the containment graph has no cycle.
    rank: Ghost<Seq<int>>,
    /// Larger than every rank.
    top: Ghost<int>,
}

impl Dom {
    // ---- the abstract state ----

    /// The number of nodes ever created.
    pub closed spec fn len(self) -> nat {
        self.nodes@.len()
    }

    pub open spec fn valid(self, h: Handle) -> bool {
        h.index() < self.len()
    }

    pub closed spec fn data_of(self, h: Handle) -> NodeData {
        self.nodes@[h.index()].data
    }

    pub closed spec fn parent_of(self, h: Handle) -> Option<ParentHandle> {
        self.nodes@[h.index()].parent
    }

    /// The node's own child list.
    pub closed spec fn children_of(self, h: Handle) -> Seq<Handle> {
        self.nodes@[h.index()].children@
    }

    /// The document of this session.
    pub closed spec fn doc_handle(self) -> Handle {
        self.document
    }

    pub closed spec fn errors_of(self) -> Seq<Seq<char>> {
        self.errors@.map_values(|e: String| e@)
    }

    pub closed spec fn quirks_of(self) -> QuirksMode {
        self.quirks_mode
    }

    pub closed spec fn top_of(self) -> int {
        self.top@
    }

    pub closed spec fn rank_of(self, h: Handle) -> int {
        self.rank@[h.index()]
    }

    pub open spec fn is_document(self, h: Handle) -> bool {
        self.data_of(h) is Document
    }

    pub open spec fn is_element(self, h: Handle) -> bool {
        self.data_of(h) is Element
    }

    pub open spec fn is_template(self, h: Handle) -> bool {
        self.data_of(h) matches NodeData::Element(_, _, ElementKind::Template(_))
    }

    /// The contents document of a template element.
    pub open spec fn contents(self, t: Handle) -> Handle {
        match self.data_of(t) {
            NodeData::Element(_, _, ElementKind::Template(d)) => d,
            _ => t,
        }
    }

    /// A node whose own child list may hold children: a document, or an element
    /// that is not a template.
    pub open spec fn is_container(self, h: Handle) -> bool {
        self.is_document(h) || (self.is_element(h) && !self.is_template(h))
    }

    /// Where an insertion into `p` lands: a template's contents document, else `p`.
    pub open spec fn insertion_target(self, p: Handle) -> Handle {
        if self.is_template(p) {
            self.contents(p)
        } else {
            p
        }
    }

    /// The back-reference that a node held by `p` carries.
    pub open spec fn tag(self, p: Handle) -> ParentHandle {
        if self.is_document(p) {
            ParentHandle::DocumentHandle(p)
        } else {
            ParentHandle::NodeHandle(p)
        }
    }

    /// `p` holds `c`: `c` is in the child list of `p`, or is the contents of the template `p`.
    pub open spec fn holds(self, p: Handle, c: Handle) -> bool {
        self.children_of(p).contains(c) || (self.is_template(p) && self.contents(p) == c)
    }

    /// `a` is `x` or is reached from `x` by following back-references.
    pub closed spec fn anc_or_self(self, a: Handle, x: Handle) -> bool
        decreases self.top_of() - self.rank_of(x),
    {
        if a == x {
            true
        } else {
            match self.parent_of(x) {
                None => false,
                Some(ph) => {
                    let y = ph.handle();
                    if self.valid(x) && self.valid(y) && self.rank_of(x) < self.rank_of(y)
                        <= self.top_of() {
                        self.anc_or_self(a, y)
                    } else {
                        false
                    }
                },
            }
        }
    }

    closed spec fn node_wf(self, p: Handle) -> bool {
        let ch = self.children_of(p);
        &&& 0 <= self.rank_of(p) < self.top@
        &&& ch.no_duplicates()
        &&& forall|i: int|
            0 <= i < ch.len() ==> {
                let c = #[trigger] ch[i];
                &&& self.valid(c)
                &&& !self.is_document(c)
                &&& self.rank_of(c) < self.rank_of(p)
            }
        &&& self.is_document(p) ==> ch.len() <= 1
        &&& !self.is_container(p) ==> ch.len() == 0
        &&& self.is_template(p) ==> {
            let d = self.contents(p);
            &&& self.valid(d)
            &&& self.is_document(d)
            &&& self.rank_of(d) < self.rank_of(p)
        }
    }

    /// The tree is well formed: every node is held by at most one container,
    /// and carries a back-reference to exactly that container; nothing holds
    /// itself, directly or not.
    pub closed spec fn wf(self) -> bool {
        &&& self.rank@.len() == self.nodes@.len()
        &&& self.valid(self.document)
        &&& self.is_document(self.document)
        &&& self.parent_of(self.document) is None
        &&& forall|p: Handle| self.valid(p) ==> #[trigger] self.node_wf(p)
        &&& forall|p: Handle, c: Handle|
            self.valid(p) && #[trigger] self.holds(p, c) ==> self.parent_of(c) == Some(
                self.tag(p),
            )
        &&& forall|c: Handle|
            self.valid(c) && (#[trigger] self.parent_of(c)) is Some ==> {
                let p = self.parent_of(c)->0.handle();
                &&& self.valid(p)
                &&& self.parent_of(c) == Some(self.tag(p))
                &&& self.holds(p, c)
            }
    }

    /// `after` differs from `self` at most in the child list of `p`, the
    /// back-reference of `c`, and nodes added past the end.
    pub open spec fn changes_only(self, after: Dom, p: Handle, c: Handle) -> bool {
        &&& after.len() >= self.len()
        &&& after.doc_handle() == self.doc_handle()
        &&& after.errors_of() == self.errors_of()
        &&& after.quirks_of() == self.quirks_of()
        &&& forall|h: Handle| self.valid(h) ==> #[trigger] after.data_of(h) == self.data_of(h)
        &&& forall|h: Handle|
            self.valid(h) && h != p ==> #[trigger] after.children_of(h) == self.children_of(h)
        &&& forall|h: Handle|
            self.valid(h) && h != c ==> #[trigger] after.parent_of(h) == self.parent_of(h)
    }

    /// `after` differs from `self` at most in the payload of `h`.
    pub open spec fn changes_data_only(self, after: Dom, h: Handle) -> bool {
        &&& after.len() == self.len()
        &&& after.doc_handle() == self.doc_handle()
        &&& after.errors_of() == self.errors_of()
        &&& after.quirks_of() == self.quirks_of()
        &&& forall|g: Handle|
            self.valid(g) && g != h ==> #[trigger] after.data_of(g) == self.data_of(g)
        &&& forall|g: Handle| self.valid(g) ==> #[trigger] after.children_of(g) == self.children_of(g)
        &&& forall|g: Handle| self.valid(g) ==> #[trigger] after.parent_of(g) == self.parent_of(g)
    }

    /// What [`Dom::create_element`] and its siblings leave behind: a new,
    /// unattached node with no children, and nothing else changed but
    /// possibly other new nodes.
    pub open spec fn created(self, after: Dom, h: Handle) -> bool {
        &&& after.wf()
        &&& self.len() <= h.index() < after.len() <= self.len() + 2
        &&& after.parent_of(h) is None
        &&& after.children_of(h).len() == 0
        &&& self.changes_only(after, h, h)
    }

    /// What [`Dom::remove_from_parent`] leaves behind: `target` is gone from
    /// the child list of its container, and has no back-reference.
    pub open spec fn removed(self, after: Dom, target: Handle) -> bool {
        let p = self.parent_of(target)->0.handle();
        &&& after.wf()
        &&& after.len() == self.len()
        &&& self.valid(p)
        &&& p != target
        &&& exists|i: int|
            0 <= i < self.children_of(p).len() && self.children_of(p)[i] == target
                && after.children_of(p) == self.children_of(p).remove(i)
        &&& self.changes_only(after, p, target)
        &&& after.parent_of(target) is None
    }

    /// What [`Dom::append`] leaves behind: the child (a new text node for
    /// raw text) is last in the child list of the insertion target, and
    /// points back to it.
    pub open spec fn appended(self, after: Dom, parent: Handle, child: NodeOrText) -> bool {
        &&& after.wf()
        &&& ({
                let t = self.insertion_target(parent);
                let c = match child {
                    NodeOrText::AppendNode(c) => c,
                    NodeOrText::AppendText(_) => self.fresh(),
                };
                &&& after.children_of(t) == self.children_of(t).push(c)
                &&& after.parent_of(c) == Some(self.tag(t))
                &&& self.changes_only(after, t, c)
                &&& match child {
                    NodeOrText::AppendNode(_) => after.len() == self.len(),
                    NodeOrText::AppendText(s) => {
                        &&& after.len() == self.len() + 1
                        &&& !self.valid(c)
                        &&& after.valid(c)
                        &&& after.data_of(c) == NodeData::Text(s)
                    },
                }
            })
    }

    /// What [`Dom::append_before_sibling`] leaves behind when `sibling` has a
    /// container: the child (a new text node for raw text) stands right
    /// before `sibling` in that container's child list, and points back to it.
    pub open spec fn inserted_before(self, after: Dom, sibling: Handle, child: NodeOrText) -> bool {
        let p = self.parent_of(sibling)->0.handle();
        let c = match child {
            NodeOrText::AppendNode(c) => c,
            NodeOrText::AppendText(_) => self.fresh(),
        };
        &&& after.wf()
        &&& exists|k: int|
            0 <= k < self.children_of(p).len() && self.children_of(p)[k] == sibling
                && after.children_of(p) == self.children_of(p).insert(k, c)
        &&& after.parent_of(c) == Some(self.tag(p))
        &&& self.changes_only(after, p, c)
        &&& match child {
            NodeOrText::AppendNode(_) => after.len() == self.len(),
            NodeOrText::AppendText(s) => {
                &&& after.len() == self.len() + 1
                &&& !self.valid(c)
                &&& after.valid(c)
                &&& after.data_of(c) == NodeData::Text(s)
            },
        }
    }

    // ---- lemmas on the invariant ----

    proof fn lemma_node(self, p: Handle)
        requires
            self.wf(),
            self.valid(p),
        ensures
            self.node_wf(p),
    {
    }

    /// A node's container has a larger rank.
    proof fn lemma_parent_rank(self, x: Handle)
        requires
            self.wf(),
            self.valid(x),
            self.parent_of(x) is Some,
        ensures
            ({
                let y = self.parent_of(x)->0.handle();
                &&& self.valid(y)
                &&& self.rank_of(x) < self.rank_of(y) < self.top@
                &&& self.holds(y, x)
            }),
    {
        let y = self.parent_of(x)->0.handle();
        assert(self.node_wf(y));
        assert(self.node_wf(x));
        if self.children_of(y).contains(x) {
            let i = choose|i: int| 0 <= i < self.children_of(y).len() && self.children_of(y)[i] == x;
            assert(self.children_of(y)[i] == x);
        }
    }

    /// Following the back-reference of an ancestor of `p` leads to an ancestor of `p`.
    proof fn lemma_anc_step(self, x: Handle, p: Handle)
        requires
            self.wf(),
            self.valid(x),
            self.valid(p),
            self.anc_or_self(x, p),
            self.parent_of(x) is Some,
        ensures
            self.anc_or_self(self.parent_of(x)->0.handle(), p),
        decreases self.top@ - self.rank_of(p),
    {
        let y = self.parent_of(x)->0.handle();
        self.lemma_parent_rank(x);
        if x == p {
            assert(self.anc_or_self(y, y));
        } else {
            self.lemma_parent_rank(p);
            let z = self.parent_of(p)->0.handle();
            self.lemma_anc_step(x, z);
        }
    }

    /// Ranks raised by `delta` on `p` and everything above it.
    closed spec fn raised(self, p: Handle, delta: int) -> Seq<int> {
        Seq::new(
            self.rank@.len(),
            |i: int|
                if self.anc_or_self(Handle { id: i as usize }, p) {
                    self.rank@[i] + delta
                } else {
                    self.rank@[i]
                },
        )
    }

    // ---- construction ----

    /// A new session with an empty document.
    pub fn new() -> (r: Dom)
        ensures
            r.wf(),
            r.len() == 1,
            r.valid(r.doc_handle()),
            r.parent_of(r.doc_handle()) is None,
            r.is_document(r.doc_handle()),
            r.data_of(r.doc_handle()) == NodeData::Document(None),
            r.children_of(r.doc_handle()).len() == 0,
            r.errors_of().len() == 0,
            r.quirks_of() == QuirksMode::NoQuirks,
    {
        let mut nodes: Vec<Entry> = Vec::new();
        nodes.push(Entry { data: NodeData::Document(None), parent: None, children: Vec::new() });
        let ghost rank0: Seq<int> = seq![0int];
        let r = Dom {
            nodes,
            document: Handle { id: 0 },
            errors: Vec::new(),
            quirks_mode: QuirksMode::NoQuirks,
            rank: Ghost(rank0),
            top: Ghost(1int),
        };
        proof {
            assert(r.errors_of() =~= Seq::empty());
            assert forall|p: Handle| r.valid(p) implies #[trigger] r.node_wf(p) by {
                assert(p == r.document);
            }
            assert forall|p: Handle, c: Handle|
                r.valid(p) && #[trigger] r.holds(p, c) implies r.parent_of(c) == Some(
                    r.tag(p),
                ) by {
                assert(p == r.document);
                assert(r.children_of(p).len() == 0);
            }
        }
        r
    }

    /// Adds an unattached node with no children.
    fn push_node(&mut self, data: NodeData) -> (h: Handle)
        requires
            old(self).wf(),
            old(self).len() < usize::MAX,
            !(data matches NodeData::Element(_, _, ElementKind::Template(_))),
        ensures
            final(self).wf(),
            h.index() == old(self).len(),
            final(self).len() == old(self).len() + 1,
            final(self).data_of(h) == data,
            final(self).parent_of(h) is None,
            final(self).children_of(h).len() == 0,
            old(self).changes_only(*final(self), h, h),
    {
        let h = Handle { id: self.nodes.len() };
        proof {
            assert(self.node_wf(self.document));
        }
        self.nodes.push(Entry { data, parent: None, children: Vec::new() });
        self.rank = Ghost(self.rank@.push(0));
        proof {
            let o = *old(self);
            assert forall|p: Handle| self.valid(p) implies #[trigger] self.node_wf(p) by {
                if p != h {
                    assert(o.node_wf(p));
                    assert forall|i: int| 0 <= i < self.children_of(p).len() implies {
                        let c = #[trigger] self.children_of(p)[i];
                        &&& self.valid(c)
                        &&& !self.is_document(c)
                        &&& self.rank_of(c) < self.rank_of(p)
                    } by {
                        let c = o.children_of(p)[i];
                        assert(o.valid(c));
                    }
                    if o.is_template(p) {
                        assert(o.valid(o.contents(p)));
                    }
                }
            }
            assert forall|p: Handle, c: Handle|
                self.valid(p) && #[trigger] self.holds(p, c) implies self.parent_of(c) == Some(
                    self.tag(p),
                ) by {
                if p != h {
                    assert(o.holds(p, c));
                    assert(o.node_wf(p));
                    if o.children_of(p).contains(c) {
                        let i = choose|i: int|
                            0 <= i < o.children_of(p).len() && o.children_of(p)[i] == c;
                        assert(o.valid(o.children_of(p)[i]));
                    }
                }
            }
            assert forall|c: Handle| self.valid(c) && (#[trigger] self.parent_of(c)) is Some implies {
                let p = self.parent_of(c)->0.handle();
                &&& self.valid(p)
                &&& self.parent_of(c) == Some(self.tag(p))
                &&& self.holds(p, c)
            } by {
                assert(c != h);
                assert(o.parent_of(c) is Some);
            }
        }
        h
    }

    /// Adds a template element and its empty contents document.
    fn push_template(&mut self, name: ElementName, attrs: Vec<Attribute>) -> (h: Handle)
        requires
            old(self).wf(),
            old(self).len() + 2 < usize::MAX,
        ensures
            final(self).wf(),
            h.index() == old(self).len() + 1,
            final(self).len() == old(self).len() + 2,
            final(self).contents(h).index() == old(self).len(),
            final(self).data_of(h) == NodeData::Element(
                name,
                attrs,
                ElementKind::Template(final(self).contents(h)),
            ),
            final(self).data_of(final(self).contents(h)) == NodeData::Document(None),
            final(self).children_of(final(self).contents(h)).len() == 0,
            final(self).parent_of(h) is None,
            final(self).children_of(h).len() == 0,
            old(self).changes_only(*final(self), h, h),
    {
        let d = Handle { id: self.nodes.len() };
        let h = Handle { id: self.nodes.len() + 1 };
        proof {
            assert(self.node_wf(self.document));
        }
        self.nodes.push(
            Entry {
                data: NodeData::Document(None),
                parent: Some(ParentHandle::NodeHandle(h)),
                children: Vec::new(),
            },
        );
        self.nodes.push(
            Entry {
                data: NodeData::Element(name, attrs, ElementKind::Template(d)),
                parent: None,
                children: Vec::new(),
            },
        );
        let ghost top = if self.top@ < 2 { 2 } else { self.top@ };
        self.rank = Ghost(self.rank@.push(0).push(1));
        self.top = Ghost(top);
        proof {
            let o = *old(self);
            assert(self.is_template(h));
            assert forall|p: Handle| self.valid(p) implies #[trigger] self.node_wf(p) by {
                if p != h && p != d {
                    assert(o.node_wf(p));
                    assert forall|i: int| 0 <= i < self.children_of(p).len() implies {
                        let c = #[trigger] self.children_of(p)[i];
                        &&& self.valid(c)
                        &&& !self.is_document(c)
                        &&& self.rank_of(c) < self.rank_of(p)
                    } by {
                        let c = o.children_of(p)[i];
                        assert(o.valid(c));
                    }
                    if o.is_template(p) {
                        assert(o.valid(o.contents(p)));
                    }
                }
            }
            assert forall|p: Handle, c: Handle|
                self.valid(p) && #[trigger] self.holds(p, c) implies self.parent_of(c) == Some(
                    self.tag(p),
                ) by {
                if p != h && p != d {
                    assert(o.holds(p, c));
                    assert(o.node_wf(p));
                    if o.children_of(p).contains(c) {
                        let i = choose|i: int|
                            0 <= i < o.children_of(p).len() && o.children_of(p)[i] == c;
                        assert(o.valid(o.children_of(p)[i]));
                    } else {
                        assert(o.valid(o.contents(p)));
                    }
                }
            }
            assert forall|c: Handle| self.valid(c) && (#[trigger] self.parent_of(c)) is Some implies {
                let p = self.parent_of(c)->0.handle();
                &&& self.valid(p)
                &&& self.parent_of(c) == Some(self.tag(p))
                &&& self.holds(p, c)
            } by {
                if c != d {
                    assert(c != h);
                    assert(o.parent_of(c) is Some);
                }
            }
        }
        h
    }

    /// Creates an unattached element. A `template` element of the HTML
    /// namespace gets an empty contents document, a `script` element an unset
    /// "already started" flag.
    pub fn create_element(&mut self, name: ElementName, attrs: Vec<Attribute>) -> (h: Handle)
        requires
            old(self).wf(),
            old(self).len() + 2 < usize::MAX,
        ensures
            old(self).created(*final(self), h),
            name.is_html_spec("template"@) ==> {
                let d = final(self).contents(h);
                &&& final(self).data_of(h) == NodeData::Element(name, attrs, ElementKind::Template(d))
                &&& d.index() >= old(self).len()
                &&& d != h
                &&& final(self).data_of(d) == NodeData::Document(None)
                &&& final(self).children_of(d).len() == 0
            },
            !name.is_html_spec("template"@) && name.is_html_spec("script"@) ==> final(self).data_of(h)
                == NodeData::Element(name, attrs, ElementKind::Script(false)),
            !name.is_html_spec("template"@) && !name.is_html_spec("script"@) ==> final(self).data_of(
                h,
            ) == NodeData::Element(name, attrs, ElementKind::Normal),
    {
        if name.is_html("template") {
            self.push_template(name, attrs)
        } else if name.is_html("script") {
            self.push_node(NodeData::Element(name, attrs, ElementKind::Script(false)))
        } else {
            self.push_node(NodeData::Element(name, attrs, ElementKind::Normal))
        }
    }

    /// Creates an unattached comment.
    pub fn create_comment(&mut self, text: String) -> (h: Handle)
        requires
            old(self).wf(),
            old(self).len() + 2 < usize::MAX,
        ensures
            final(self).wf(),
            h.index() == old(self).len(),
            final(self).len() == old(self).len() + 1,
            final(self).data_of(h) == NodeData::Comment(text),
            final(self).parent_of(h) is None,
            final(self).children_of(h).len() == 0,
            old(self).changes_only(*final(self), h, h),
    {
        self.push_node(NodeData::Comment(text))
    }

    /// Creates an unattached text node.
    pub fn create_text(&mut self, text: String) -> (h: Handle)
        requires
            old(self).wf(),
            old(self).len() + 2 < usize::MAX,
        ensures
            final(self).wf(),
            h.index() == old(self).len(),
            final(self).len() == old(self).len() + 1,
            final(self).data_of(h) == NodeData::Text(text),
            final(self).parent_of(h) is None,
            final(self).children_of(h).len() == 0,
            old(self).changes_only(*final(self), h, h),
    {
        self.push_node(NodeData::Text(text))
    }

    /// Puts the unattached node `c` at position `idx` of the child list of the
    /// container `p`.
    fn attach_at(&mut self, p: Handle, c: Handle, idx: usize)
        requires
            old(self).wf(),
            old(self).valid(p),
            old(self).valid(c),
            old(self).is_container(p),
            old(self).is_document(p) ==> old(self).children_of(p).len() == 0,
            !old(self).is_document(c),
            old(self).parent_of(c) is None,
            !old(self).anc_or_self(c, p),
            idx <= old(self).children_of(p).len(),
        ensures
            final(self).wf(),
            final(self).len() == old(self).len(),
            final(self).children_of(p) == old(self).children_of(p).insert(idx as int, c),
            final(self).parent_of(c) == Some(old(self).tag(p)),
            old(self).changes_only(*final(self), p, c),
    {
        let ghost o = *self;
        let tag = if let NodeData::Document(_) = &self.nodes[p.id].data {
            ParentHandle::DocumentHandle(p)
        } else {
            ParentHandle::NodeHandle(p)
        };
        assert(tag == o.tag(p));
        proof {
            o.lemma_node(p);
            o.lemma_node(c);
            if o.children_of(p).contains(c) {
                assert(o.holds(p, c));
            }
            lemma_insert_facts(o.children_of(p), idx as int, c);
        }
        let ghost delta: int = if o.rank_of(c) + 1 > o.rank_of(p) {
            o.rank_of(c) + 1 - o.rank_of(p)
        } else {
            0
        };
        let ghost new_rank = o.raised(p, delta);
        self.nodes[p.id].children.insert(idx, c);
        self.nodes[c.id].parent = Some(tag);
        self.rank = Ghost(new_rank);
        self.top = Ghost(o.top@ + delta);
        proof {
            assert(self.data_of(p) == o.data_of(p));
            assert(o.anc_or_self(p, p));
            assert forall|h: Handle| self.valid(h) implies #[trigger] self.data_of(h) == o.data_of(h)
                && self.rank_of(h) == (if o.anc_or_self(h, p) {
                o.rank_of(h) + delta
            } else {
                o.rank_of(h)
            }) by {}
            assert forall|h: Handle|
                self.valid(h) && h != p implies #[trigger] self.children_of(h)
                == o.children_of(h) by {}
            assert forall|h: Handle|
                self.valid(h) && h != c implies #[trigger] self.parent_of(h) == o.parent_of(h) by {}
            assert(self.data_of(self.document) == o.data_of(o.document));
            assert forall|q: Handle| self.valid(q) implies #[trigger] self.node_wf(q) by {
                o.lemma_node(q);
                assert(self.data_of(q) == o.data_of(q));
                let ch = self.children_of(q);
                assert forall|i: int| 0 <= i < ch.len() implies {
                    let k = #[trigger] ch[i];
                    &&& self.valid(k)
                    &&& !self.is_document(k)
                    &&& self.rank_of(k) < self.rank_of(q)
                } by {
                    let k = ch[i];
                    if k != c {
                        assert(o.children_of(q).contains(k));
                        let j = choose|j: int|
                            0 <= j < o.children_of(q).len() && o.children_of(q)[j] == k;
                        assert(o.children_of(q)[j] == k);
                        assert(o.valid(k));
                        assert(self.data_of(k) == o.data_of(k));
                        assert(o.holds(q, k));
                        if o.anc_or_self(k, p) {
                            o.lemma_anc_step(k, p);
                        }
                    } else if q != p {
                        assert(o.children_of(q).contains(c));
                        assert(o.holds(q, c));
                    }
                }
                if o.is_template(q) {
                    let d = o.contents(q);
                    assert(o.holds(q, d));
                    assert(self.data_of(d) == o.data_of(d));
                    if o.anc_or_self(d, p) {
                        o.lemma_anc_step(d, p);
                    }
                }
            }
            assert forall|q: Handle, k: Handle|
                self.valid(q) && #[trigger] self.holds(q, k) implies self.parent_of(k) == Some(
                    self.tag(q),
                ) by {
                assert(self.data_of(q) == o.data_of(q));
                assert(self.tag(q) == o.tag(q));
                assert(self.children_of(p) == o.children_of(p).insert(idx as int, c));
                if !(q == p && k == c) {
                    if q == p && self.children_of(p).contains(k) {
                        assert(o.children_of(p).insert(idx as int, c).contains(k));
                    }
                    assert(o.holds(q, k));
                    o.lemma_node(q);
                    if o.children_of(q).contains(k) {
                        let j = choose|j: int|
                            0 <= j < o.children_of(q).len() && o.children_of(q)[j] == k;
                        assert(o.children_of(q)[j] == k);
                    }
                    assert(o.valid(k));
                    if k == c {
                        assert(o.parent_of(c) == Some(o.tag(q)));
                    }
                }
            }
            assert forall|k: Handle| self.valid(k) && (#[trigger] self.parent_of(k)) is Some implies {
                let q = self.parent_of(k)->0.handle();
                &&& self.valid(q)
                &&& self.parent_of(k) == Some(self.tag(q))
                &&& self.holds(q, k)
            } by {
                if k != c {
                    assert(o.parent_of(k) is Some);
                    let q = o.parent_of(k)->0.handle();
                    assert(o.holds(q, k));
                    assert(self.data_of(q) == o.data_of(q));
                    if q == p {
                        assert(o.children_of(p).contains(k) ==> self.children_of(p).contains(k));
                    }
                }
            }
        }
    }

    /// A proper ancestor holds something.
    proof fn lemma_anc_holds(self, a: Handle, x: Handle)
        requires
            self.wf(),
            self.valid(x),
            self.anc_or_self(a, x),
            a != x,
        ensures
            exists|k: Handle| self.holds(a, k),
        decreases self.top_of() - self.rank_of(x),
    {
        self.lemma_parent_rank(x);
        let y = self.parent_of(x)->0.handle();
        if a != y {
            self.lemma_anc_holds(a, y);
        }
    }

    /// The handle that the next node created will get.
    pub closed spec fn fresh(self) -> Handle {
        Handle { id: self.len() as usize }
    }

    /// Appends `child` as the last child of `parent`; raw text first becomes a
    /// new text node. Appending to a template appends to its contents
    /// document. A document holds at most one child, so its slot must be
    /// empty.
    pub fn append(&mut self, parent: Handle, child: NodeOrText)
        requires
            old(self).wf(),
            old(self).valid(parent),
            old(self).len() + 2 < usize::MAX,
            old(self).is_container(old(self).insertion_target(parent)),
            old(self).is_document(old(self).insertion_target(parent)) ==> old(self).children_of(
                old(self).insertion_target(parent),
            ).len() == 0,
            child matches NodeOrText::AppendNode(c) ==> {
                &&& old(self).valid(c)
                &&& !old(self).is_document(c)
                &&& old(self).parent_of(c) is None
                &&& !old(self).anc_or_self(c, parent)
            },
        ensures
            old(self).appended(*final(self), parent, child),
    {
        let ghost o = *self;
        let target = match &self.nodes[parent.id].data {
            NodeData::Element(_, _, ElementKind::Template(d)) => *d,
            _ => parent,
        };
        proof {
            o.lemma_node(parent);
            if o.is_template(parent) {
                assert(o.holds(parent, target));
                o.lemma_parent_rank(target);
            }
        }
        match child {
            NodeOrText::AppendNode(c) => {
                let n = self.children_len(target);
                self.attach_at(target, c, n);
                proof {
                    assert(o.children_of(target).insert(n as int, c) =~= o.children_of(target).push(c));
                }
            },
            NodeOrText::AppendText(s) => {
                let c = self.create_text(s);
                let ghost o1 = *self;
                proof {
                    assert(c == o.fresh());
                    if o1.anc_or_self(c, target) {
                        o1.lemma_anc_holds(c, target);
                        let k = choose|k: Handle| o1.holds(c, k);
                        assert(o1.children_of(c).len() == 0);
                    }
                    assert(o1.children_of(target) == o.children_of(target));
                }
                let n = self.children_len(target);
                self.attach_at(target, c, n);
                proof {
                    assert(o.children_of(target).insert(n as int, c) =~= o.children_of(target).push(c));
                }
            },
        }
    }

    /// The length of a node's own child list.
    fn children_len(&self, h: Handle) -> (n: usize)
        requires
            self.valid(h),
        ensures
            n == self.children_of(h).len(),
    {
        self.nodes[h.id].children.len()
    }

    /// Where `c` stands in the child list of `p`.
    fn position(&self, p: Handle, c: Handle) -> (i: usize)
        requires
            self.valid(p),
            self.children_of(p).contains(c),
        ensures
            i < self.children_of(p).len(),
            self.children_of(p)[i as int] == c,
    {
        let children = &self.nodes[p.id].children;
        let mut i: usize = 0;
        while i < children.len()
            invariant
                children@ == self.children_of(p),
                children@.contains(c),
                i <= children.len(),
                forall|j: int| 0 <= j < i ==> children@[j] != c,
            decreases children.len() - i,
        {
            if children[i] == c {
                return i;
            }
            i = i + 1;
        }
        i
    }

    /// Detaches `target` from the container that holds it and clears its
    /// back-reference.
    pub fn remove_from_parent(&mut self, target: Handle)
        requires
            old(self).wf(),
            old(self).valid(target),
            !old(self).is_document(target),
            old(self).parent_of(target) is Some,
        ensures
            old(self).removed(*final(self), target),
    {
        let ghost o = *self;
        let p = match &self.nodes[target.id].parent {
            Some(ph) => ph.target(),
            None => target,
        };
        proof {
            o.lemma_parent_rank(target);
            o.lemma_node(p);
        }
        let i = self.position(p, target);
        proof {
            lemma_remove_facts(o.children_of(p), i as int);
        }
        self.nodes[p.id].children.remove(i);
        self.nodes[target.id].parent = None;
        proof {
            assert forall|h: Handle| self.valid(h) implies #[trigger] self.data_of(h) == o.data_of(h)
                && self.rank_of(h) == o.rank_of(h) by {}
            assert forall|h: Handle|
                self.valid(h) && h != p implies #[trigger] self.children_of(h)
                == o.children_of(h) by {}
            assert forall|h: Handle|
                self.valid(h) && h != target implies #[trigger] self.parent_of(h) == o.parent_of(
                h,
            ) by {}
            assert(self.data_of(self.document) == o.data_of(o.document));
            assert(self.children_of(p) == o.children_of(p).remove(i as int));
            assert forall|q: Handle| self.valid(q) implies #[trigger] self.node_wf(q) by {
                o.lemma_node(q);
                assert(self.data_of(q) == o.data_of(q));
                let ch = self.children_of(q);
                assert forall|j: int| 0 <= j < ch.len() implies {
                    let k = #[trigger] ch[j];
                    &&& self.valid(k)
                    &&& !self.is_document(k)
                    &&& self.rank_of(k) < self.rank_of(q)
                } by {
                    let k = ch[j];
                    if q == p {
                        assert(o.children_of(p).remove(i as int).contains(k));
                    }
                    assert(o.children_of(q).contains(k));
                    let m = choose|m: int|
                        0 <= m < o.children_of(q).len() && o.children_of(q)[m] == k;
                    assert(o.children_of(q)[m] == k);
                    assert(self.data_of(k) == o.data_of(k));
                }
                if o.is_template(q) {
                    assert(self.data_of(o.contents(q)) == o.data_of(o.contents(q)));
                }
            }
            assert forall|q: Handle, k: Handle|
                self.valid(q) && #[trigger] self.holds(q, k) implies self.parent_of(k) == Some(
                    self.tag(q),
                ) by {
                assert(self.data_of(q) == o.data_of(q));
                assert(self.tag(q) == o.tag(q));
                if q == p && self.children_of(p).contains(k) {
                    assert(o.children_of(p).remove(i as int).contains(k));
                }
                assert(o.holds(q, k));
                o.lemma_node(q);
                if o.children_of(q).contains(k) {
                    let m = choose|m: int|
                        0 <= m < o.children_of(q).len() && o.children_of(q)[m] == k;
                    assert(o.children_of(q)[m] == k);
                }
                assert(o.valid(k));
                if k == target {
                    assert(o.parent_of(target) == Some(o.tag(q)));
                    assert(q == p);
                    assert(!self.children_of(p).contains(target));
                }
            }
            assert forall|k: Handle| self.valid(k) && (#[trigger] self.parent_of(k)) is Some implies {
                let q = self.parent_of(k)->0.handle();
                &&& self.valid(q)
                &&& self.parent_of(k) == Some(self.tag(q))
                &&& self.holds(q, k)
            } by {
                assert(k != target);
                assert(o.parent_of(k) is Some);
                let q = o.parent_of(k)->0.handle();
                assert(o.holds(q, k));
                assert(self.data_of(q) == o.data_of(q));
                if q == p && o.children_of(p).contains(k) {
                    assert(o.children_of(p).remove(i as int).contains(k));
                }
            }
        }
    }

    /// Inserts `child` into the container of `sibling`, immediately before it;
    /// raw text first becomes a new text node. When `sibling` has no
    /// container, nothing changes and `child` comes back unused.
    pub fn append_before_sibling(&mut self, sibling: Handle, child: NodeOrText) -> (r: Result<
        (),
        NodeOrText,
    >)
        requires
            old(self).wf(),
            old(self).valid(sibling),
            !old(self).is_document(sibling),
            old(self).len() + 2 < usize::MAX,
            old(self).parent_of(sibling) matches Some(ph) ==> !old(self).is_document(ph.handle()),
            child matches NodeOrText::AppendNode(c) ==> {
                &&& old(self).valid(c)
                &&& !old(self).is_document(c)
                &&& old(self).parent_of(c) is None
                &&& old(self).parent_of(sibling) matches Some(ph) ==> !old(self).anc_or_self(
                    c,
                    ph.handle(),
                )
            },
        ensures
            final(self).wf(),
            old(self).parent_of(sibling) is None ==> {
                &&& r == Err::<(), NodeOrText>(child)
                &&& *final(self) == *old(self)
            },
            old(self).parent_of(sibling) is Some ==> r is Ok && old(self).inserted_before(
                *final(self),
                sibling,
                child,
            ),
    {
        let ghost o = *self;
        let p = match &self.nodes[sibling.id].parent {
            Some(ph) => ph.target(),
            None => {
                return Err(child);
            },
        };
        proof {
            o.lemma_parent_rank(sibling);
            o.lemma_node(p);
        }
        let k = self.position(p, sibling);
        match child {
            NodeOrText::AppendNode(c) => {
                self.attach_at(p, c, k);
            },
            NodeOrText::AppendText(s) => {
                let c = self.create_text(s);
                let ghost o1 = *self;
                proof {
                    assert(c == o.fresh());
                    if o1.anc_or_self(c, p) {
                        o1.lemma_anc_holds(c, p);
                        let x = choose|x: Handle| o1.holds(c, x);
                        assert(o1.children_of(c).len() == 0);
                    }
                    assert(o1.children_of(p) == o.children_of(p));
                }
                self.attach_at(p, c, k);
            },
        }
        Ok(())
    }

    /// Ancestry above `x` depends only on the back-references along the way up.
    proof fn lemma_anc_frame(s: Dom, t: Dom, a: Handle, x: Handle)
        requires
            s.wf(),
            t.wf(),
            s.len() == t.len(),
            s.valid(x),
            forall|k: Handle| s.valid(k) && s.anc_or_self(k, x) ==> t.parent_of(k) == s.parent_of(k),
        ensures
            t.anc_or_self(a, x) == s.anc_or_self(a, x),
        decreases s.top_of() - s.rank_of(x),
    {
        if a != x {
            assert(s.anc_or_self(x, x));
            if s.parent_of(x) is Some {
                s.lemma_parent_rank(x);
                t.lemma_parent_rank(x);
                let y = s.parent_of(x)->0.handle();
                assert forall|k: Handle| s.valid(k) && s.anc_or_self(k, y) implies t.parent_of(k)
                    == s.parent_of(k) by {
                    if k != x {
                        assert(s.anc_or_self(k, x));
                    }
                }
                Self::lemma_anc_frame(s, t, a, y);
            }
        }
    }

    /// Moves every child of `old_parent`, in order, to the end of the child
    /// list of `new_parent` (of its contents, for a template), and leaves
    /// `old_parent` with no children.
    /// When `old_parent` has no children nothing changes, whatever the two
    /// handles are.
    pub fn reparent_children(&mut self, old_parent: Handle, new_parent: Handle)
        requires
            old(self).wf(),
            old(self).valid(old_parent),
            old(self).valid(new_parent),
            old(self).children_of(old_parent).len() > 0 ==> {
                let t = old(self).insertion_target(new_parent);
                &&& old(self).is_container(t)
                &&& t != old_parent
                &&& !old(self).anc_or_self(old_parent, new_parent)
                &&& old(self).is_document(t) ==> old(self).children_of(t).len()
                    + old(self).children_of(old_parent).len() <= 1
            },
        ensures
            final(self).wf(),
            ({
                let t = old(self).insertion_target(new_parent);
                let moved = old(self).children_of(old_parent);
                &&& final(self).len() == old(self).len()
                &&& final(self).doc_handle() == old(self).doc_handle()
                &&& final(self).errors_of() == old(self).errors_of()
                &&& final(self).quirks_of() == old(self).quirks_of()
                &&& final(self).children_of(old_parent).len() == 0
                &&& final(self).children_of(t) == old(self).children_of(t) + moved
                &&& forall|h: Handle|
                    old(self).valid(h) ==> #[trigger] final(self).data_of(h) == old(self).data_of(h)
                &&& forall|h: Handle|
                    old(self).valid(h) && h != old_parent && h != t ==> #[trigger] final(self).children_of(h) == old(self).children_of(h)
                &&& forall|h: Handle|
                    old(self).valid(h) && !moved.contains(h) ==> #[trigger] final(self).parent_of(h)
                        == old(self).parent_of(h)
                &&& forall|h: Handle|
                    moved.contains(h) ==> #[trigger] final(self).parent_of(h) == Some(
                        old(self).tag(t),
                    )
            }),
    {
        let ghost o = *self;
        if self.children_len(old_parent) == 0 {
            proof {
                assert(o.children_of(o.insertion_target(new_parent)) + o.children_of(old_parent)
                    =~= o.children_of(o.insertion_target(new_parent)));
            }
            return;
        }
        let target = match &self.nodes[new_parent.id].data {
            NodeData::Element(_, _, ElementKind::Template(d)) => *d,
            _ => new_parent,
        };
        let ghost moved = o.children_of(old_parent);
        proof {
            o.lemma_node(new_parent);
            o.lemma_node(old_parent);
            if o.is_template(new_parent) {
                assert(o.holds(new_parent, target));
                o.lemma_parent_rank(target);
            }
            assert(!o.anc_or_self(old_parent, target));
            assert forall|j: int| 0 <= j < moved.len() implies o.valid(#[trigger] moved[j]) by {}
        }
        let total = self.children_len(old_parent);
        let mut i: usize = 0;
        while self.children_len(old_parent) > 0
            invariant
                moved.len() == total,
                self.wf(),
                self.len() == o.len(),
                o.wf(),
                o.valid(old_parent),
                o.valid(target),
                target != old_parent,
                target == o.insertion_target(new_parent),
                o.is_container(target),
                o.is_document(target) ==> o.children_of(target).len() + moved.len() <= 1,
                moved == o.children_of(old_parent),
                moved.no_duplicates(),
                forall|j: int| 0 <= j < moved.len() ==> !o.is_document(#[trigger] moved[j]),
                forall|j: int| 0 <= j < moved.len() ==> o.valid(#[trigger] moved[j]),
                i <= moved.len(),
                self.children_of(old_parent) == moved.subrange(i as int, moved.len() as int),
                self.children_of(target) == o.children_of(target) + moved.subrange(0, i as int),
                !self.anc_or_self(old_parent, target),
                self.doc_handle() == o.doc_handle(),
                self.errors_of() == o.errors_of(),
                self.quirks_of() == o.quirks_of(),
                forall|h: Handle| o.valid(h) ==> #[trigger] self.data_of(h) == o.data_of(h),
                forall|h: Handle|
                    o.valid(h) && h != old_parent && h != target ==> #[trigger] self.children_of(h)
                        == o.children_of(h),
                forall|h: Handle|
                    o.valid(h) && !moved.subrange(0, i as int).contains(h) ==> #[trigger] self.parent_of(
                        h,
                    ) == o.parent_of(h),
                forall|h: Handle|
                    moved.subrange(0, i as int).contains(h) ==> #[trigger] self.parent_of(h) == Some(
                        o.tag(target),
                    ),
            decreases moved.len() - i,
        {
            let ghost s0 = *self;
            let c = self.nodes[old_parent.id].children[0];
            proof {
                assert(moved[i as int] == c);
                s0.lemma_node(old_parent);
                assert(s0.holds(old_parent, c));
                if s0.anc_or_self(c, target) {
                    s0.lemma_anc_step(c, target);
                }
            }
            self.remove_from_parent(c);
            let ghost s1 = *self;
            proof {
                let idx = choose|idx: int|
                    0 <= idx < s0.children_of(old_parent).len() && s0.children_of(old_parent)[idx]
                        == c && s1.children_of(old_parent) == s0.children_of(old_parent).remove(idx);
                assert(idx == 0);
                assert(s1.children_of(old_parent) =~= moved.subrange(i + 1, moved.len() as int));
                assert forall|k: Handle| s0.valid(k) && s0.anc_or_self(k, target) implies s1.parent_of(k)
                    == s0.parent_of(k) by {}
                Self::lemma_anc_frame(s0, s1, c, target);
                Self::lemma_anc_frame(s0, s1, old_parent, target);
                assert(s1.children_of(target) == s0.children_of(target));
                if o.is_document(target) {
                    assert(moved.len() >= 1);
                    assert(s1.children_of(target).len() == 0);
                }
            }
            let n = self.children_len(target);
            self.attach_at(target, c, n);
            proof {
                let s2 = *self;
                assert forall|k: Handle| s1.valid(k) && s1.anc_or_self(k, target) implies s2.parent_of(k)
                    == s1.parent_of(k) by {}
                Self::lemma_anc_frame(s1, s2, old_parent, target);
                assert(s2.children_of(target) =~= o.children_of(target) + moved.subrange(0, i + 1));
                assert(s1.tag(target) == o.tag(target));
                assert forall|h: Handle|
                    o.valid(h) && !moved.subrange(0, i + 1).contains(h) implies #[trigger] s2.parent_of(
                    h,
                ) == o.parent_of(h) by {
                    if moved.subrange(0, i as int).contains(h) {
                        let m = choose|m: int| 0 <= m < i && #[trigger] moved.subrange(0, i as int)[m] == h;
                        assert(moved.subrange(0, i + 1)[m] == h);
                    }
                    assert(h != c) by {
                        assert(moved.subrange(0, i + 1)[i as int] == c);
                    }
                }
                assert forall|h: Handle|
                    moved.subrange(0, i + 1).contains(h) implies #[trigger] s2.parent_of(h) == Some(
                    o.tag(target),
                ) by {
                    let m = choose|m: int| 0 <= m < i + 1 && #[trigger] moved.subrange(0, i + 1)[m] == h;
                    if m < i {
                        assert(moved.subrange(0, i as int)[m] == h);
                        assert(moved[m] == h);
                        assert(moved[i as int] == c);
                        assert(o.valid(h));
                    } else {
                        assert(h == c);
                    }
                }
            }
            i = i + 1;
        }
        proof {
            assert(moved.subrange(0, moved.len() as int) =~= moved);
        }
    }

    /// The attributes of an element.
    pub open spec fn attrs_of(self, h: Handle) -> Seq<Attribute> {
        match self.data_of(h) {
            NodeData::Element(_, a, _) => a@,
            _ => Seq::empty(),
        }
    }

    /// Changing the payload of nodes keeps the tree well formed, as long as no
    /// node changes between document, template (with its contents) and the rest.
    proof fn lemma_reshape(o: Dom, s: Dom)
        requires
            o.wf(),
            s.nodes@.len() == o.nodes@.len(),
            s.rank == o.rank,
            s.top == o.top,
            s.document == o.document,
            forall|h: Handle|
                o.valid(h) ==> {
                    &&& #[trigger] s.children_of(h) == o.children_of(h)
                    &&& s.parent_of(h) == o.parent_of(h)
                    &&& s.is_document(h) == o.is_document(h)
                    &&& s.is_element(h) == o.is_element(h)
                    &&& s.is_template(h) == o.is_template(h)
                    &&& s.contents(h) == o.contents(h)
                },
        ensures
            s.wf(),
    {
        assert(s.children_of(s.document) == o.children_of(o.document));
        assert forall|q: Handle| s.valid(q) implies #[trigger] s.node_wf(q) by {
            o.lemma_node(q);
            assert(s.children_of(q) == o.children_of(q));
            assert forall|i: int| 0 <= i < s.children_of(q).len() implies {
                let k = #[trigger] s.children_of(q)[i];
                &&& s.valid(k)
                &&& !s.is_document(k)
                &&& s.rank_of(k) < s.rank_of(q)
            } by {
                let k = o.children_of(q)[i];
                assert(s.children_of(k) == o.children_of(k));
            }
            if o.is_template(q) {
                assert(s.children_of(o.contents(q)) == o.children_of(o.contents(q)));
            }
        }
        assert forall|q: Handle, k: Handle|
            s.valid(q) && #[trigger] s.holds(q, k) implies s.parent_of(k) == Some(s.tag(q)) by {
            assert(s.children_of(q) == o.children_of(q));
            assert(o.holds(q, k));
            o.lemma_node(q);
            if o.children_of(q).contains(k) {
                let m = choose|m: int| 0 <= m < o.children_of(q).len() && o.children_of(q)[m] == k;
                assert(o.children_of(q)[m] == k);
            }
            assert(s.children_of(k) == o.children_of(k));
        }
        assert forall|k: Handle| s.valid(k) && (#[trigger] s.parent_of(k)) is Some implies {
            let q = s.parent_of(k)->0.handle();
            &&& s.valid(q)
            &&& s.parent_of(k) == Some(s.tag(q))
            &&& s.holds(q, k)
        } by {
            assert(s.children_of(k) == o.children_of(k));
            assert(o.parent_of(k) is Some);
            let q = o.parent_of(k)->0.handle();
            assert(s.children_of(q) == o.children_of(q));
        }
    }

    /// Sets the document type declaration of the document, replacing any earlier one.
    pub fn append_doctype_to_document(&mut self, name: String, public_id: String, system_id: String)
        requires
            old(self).wf(),
        ensures
            final(self).wf(),
            final(self).data_of(final(self).doc_handle()) == NodeData::Document(
                Some(Doctype { name, public_id, system_id }),
            ),
            old(self).changes_data_only(*final(self), old(self).doc_handle()),
    {
        let ghost o = *self;
        let d = self.document.id;
        self.nodes[d].data = NodeData::Document(Some(Doctype { name, public_id, system_id }));
        proof {
            Self::lemma_reshape(o, *self);
        }
    }

    /// Adds to the element `target`, in order, each candidate attribute whose
    /// name it does not have yet (counting candidates already added); the
    /// attributes it has keep their values.
    pub fn add_attrs_if_missing(&mut self, target: Handle, attrs: Vec<Attribute>)
        requires
            old(self).wf(),
            old(self).valid(target),
            old(self).is_element(target),
        ensures
            final(self).wf(),
            old(self).changes_data_only(*final(self), target),
            final(self).is_element(target),
            final(self).attrs_of(target) == merged_attrs(old(self).attrs_of(target), attrs@),
            match (old(self).data_of(target), final(self).data_of(target)) {
                (NodeData::Element(n0, _, k0), NodeData::Element(n1, _, k1)) => n0 == n1 && k0 == k1,
                _ => false,
            },
    {
        let ghost o = *self;
        match &mut self.nodes[target.id].data {
            NodeData::Element(_, existing, _) => {
                add_missing_attrs(existing, attrs);
            },
            _ => {},
        }
        proof {
            Self::lemma_reshape(o, *self);
        }
    }

    /// Sets the "already started" flag of a script element; any other node is
    /// left as it is.
    pub fn mark_script_already_started(&mut self, node: Handle)
        requires
            old(self).wf(),
            old(self).valid(node),
        ensures
            final(self).wf(),
            old(self).changes_data_only(*final(self), node),
            match old(self).data_of(node) {
                NodeData::Element(n, a, ElementKind::Script(_)) => final(self).data_of(node)
                    == NodeData::Element(n, a, ElementKind::Script(true)),
                _ => final(self).data_of(node) == old(self).data_of(node),
            },
    {
        let ghost o = *self;
        match &mut self.nodes[node.id].data {
            NodeData::Element(_, _, ElementKind::Script(started)) => {
                *started = true;
            },
            _ => {},
        }
        proof {
            Self::lemma_reshape(o, *self);
        }
    }

    /// Records a parse error; the tree is not touched.
    pub fn parse_error(&mut self, message: String)
        requires
            old(self).wf(),
        ensures
            final(self).wf(),
            final(self).errors_of() == old(self).errors_of().push(message@),
            final(self).len() == old(self).len(),
            final(self).doc_handle() == old(self).doc_handle(),
            final(self).quirks_of() == old(self).quirks_of(),
            forall|h: Handle| old(self).valid(h) ==> {
                &&& #[trigger] final(self).data_of(h) == old(self).data_of(h)
                &&& final(self).children_of(h) == old(self).children_of(h)
                &&& final(self).parent_of(h) == old(self).parent_of(h)
            },
    {
        let ghost o = *self;
        self.errors.push(message);
        proof {
            assert(self.errors_of() =~= o.errors_of().push(message@));
            Self::lemma_reshape(o, *self);
        }
    }

    /// Records the quirks mode; the tree is not touched.
    pub fn set_quirks_mode(&mut self, mode: QuirksMode)
        requires
            old(self).wf(),
        ensures
            final(self).wf(),
            final(self).quirks_of() == mode,
            final(self).errors_of() == old(self).errors_of(),
            final(self).len() == old(self).len(),
            final(self).doc_handle() == old(self).doc_handle(),
            forall|h: Handle| old(self).valid(h) ==> {
                &&& #[trigger] final(self).data_of(h) == old(self).data_of(h)
                &&& final(self).children_of(h) == old(self).children_of(h)
                &&& final(self).parent_of(h) == old(self).parent_of(h)
            },
    {
        let ghost o = *self;
        self.quirks_mode = mode;
        proof {
            Self::lemma_reshape(o, *self);
        }
    }

    // ---- reading ----

    /// The document of this session; always the same handle.
    pub fn get_document(&self) -> (r: Handle)
        ensures
            r == self.doc_handle(),
            self.wf() ==> self.valid(r) && self.is_document(r) && self.parent_of(r) is None,
    {
        self.document
    }

    /// The document of this session; always the same handle.
    pub fn document(&self) -> (r: Handle)
        ensures
            r == self.doc_handle(),
            self.wf() ==> self.valid(r) && self.is_document(r) && self.parent_of(r) is None,
    {
        self.document
    }

    /// The contents document of a template element.
    pub fn get_template_contents(&self, target: Handle) -> (r: Handle)
        requires
            self.valid(target),
            self.is_template(target),
        ensures
            r == self.contents(target),
    {
        match &self.nodes[target.id].data {
            NodeData::Element(_, _, ElementKind::Template(d)) => *d,
            _ => target,
        }
    }

    /// The name of an element.
    pub fn elem_name(&self, target: Handle) -> (r: &ElementName)
        requires
            self.valid(target),
            self.is_element(target),
        ensures
            self.data_of(target) matches NodeData::Element(n, _, _) && *r == n,
    {
        match &self.nodes[target.id].data {
            NodeData::Element(n, _, _) => n,
            _ => vstd::pervasive::unreached(),
        }
    }

    /// Whether two handles name the same node. Two nodes created apart are
    /// never the same, however alike their contents.
    pub fn same_node(&self, a: Handle, b: Handle) -> (r: bool)
        ensures
            r == (a == b),
    {
        a.id == b.id
    }

    /// The payload of a node.
    pub fn node(&self, h: Handle) -> (r: &NodeData)
        requires
            self.valid(h),
        ensures
            *r == self.data_of(h),
    {
        &self.nodes[h.id].data
    }

    /// The back-reference of a node: the container that holds it, if any.
    pub fn parent(&self, h: Handle) -> (r: Option<ParentHandle>)
        requires
            self.valid(h),
        ensures
            r == self.parent_of(h),
    {
        self.nodes[h.id].parent
    }

    /// The node's own child list. A template's is always empty: its content
    /// is reached through [`Dom::get_template_contents`].
    pub fn children(&self, h: Handle) -> (r: &Vec<Handle>)
        requires
            self.wf(),
            self.valid(h),
        ensures
            r@ == self.children_of(h),
            self.is_template(h) ==> r@.len() == 0,
    {
        proof {
            self.lemma_node(h);
        }
        &self.nodes[h.id].children
    }

    /// The child of a document, if it has one.
    pub fn document_child(&self, d: Handle) -> (r: Option<Handle>)
        requires
            self.wf(),
            self.valid(d),
            self.is_document(d),
        ensures
            r == (if self.children_of(d).len() == 0 {
                None
            } else {
                Some(self.children_of(d)[0])
            }),
    {
        proof {
            self.lemma_node(d);
        }
        if self.nodes[d.id].children.len() == 0 {
            None
        } else {
            Some(self.nodes[d.id].children[0])
        }
    }

    /// The parse errors reported so far, in order.
    pub fn errors(&self) -> (r: &Vec<String>)
        ensures
            r@.map_values(|e: String| e@) == self.errors_of(),
    {
        &self.errors
    }

    /// The quirks mode last recorded.
    pub fn quirks_mode(&self) -> (r: QuirksMode)
        ensures
            r == self.quirks_of(),
    {
        self.quirks_mode
    }

    /// Whether `a` is `x`, or holds `x` directly or not (following
    /// back-references up from `x`).
    pub fn is_ancestor_or_self(&self, a: Handle, x: Handle) -> (r: bool)
        requires
            self.wf(),
            self.valid(x),
        ensures
            r == self.anc_or_self(a, x),
    {
        let mut cur = x;
        while cur.id != a.id
            invariant
                self.wf(),
                self.valid(cur),
                self.anc_or_self(a, x) == self.anc_or_self(a, cur),
            decreases self.top_of() - self.rank_of(cur),
        {
            match self.nodes[cur.id].parent {
                None => {
                    return false;
                },
                Some(ph) => {
                    proof {
                        self.lemma_parent_rank(cur);
                    }
                    cur = ph.target();
                },
            }
        }
        true
    }

    // ---- serialization order ----

    /// The writer calls for a node and everything it holds, depth first: a
    /// comment or text node writes its payload; an element writes its start
    /// tag, its content (for a template, that of its contents document) and
    /// its end tag; a document writes its content only.
    pub open spec fn node_events(self, h: Handle) -> Seq<WriteCall>
        decreases self.rank_of(h), 1int, 0int,
    {
        match self.data_of(h) {
            NodeData::Comment(_) => seq![WriteCall::Comment(h)],
            NodeData::Text(_) => seq![WriteCall::Text(h)],
            NodeData::Document(_) => self.list_events(h, self.children_of(h).len() as int),
            NodeData::Element(_, _, kind) => {
                let inner = match kind {
                    ElementKind::Template(d) => if 0 <= self.rank_of(d) < self.rank_of(h) {
                        self.list_events(d, self.children_of(d).len() as int)
                    } else {
                        Seq::empty()
                    },
                    _ => self.list_events(h, self.children_of(h).len() as int),
                };
                seq![WriteCall::StartElem(h)] + inner + seq![WriteCall::EndElem(h)]
            },
        }
    }

    /// The writer calls for the first `n` children of `p`, one after the other.
    pub open spec fn list_events(self, p: Handle, n: int) -> Seq<WriteCall>
        decreases self.rank_of(p), 0int, n,
    {
        if n <= 0 || n > self.children_of(p).len() {
            Seq::empty()
        } else {
            let c = self.children_of(p)[n - 1];
            self.list_events(p, n - 1) + if 0 <= self.rank_of(c) < self.rank_of(p) {
                self.node_events(c)
            } else {
                Seq::empty()
            }
        }
    }

    /// The writer calls for a document: its doctype, if it has one, then its content.
    pub open spec fn document_events(self, d: Handle) -> Seq<WriteCall> {
        let head = match self.data_of(d) {
            NodeData::Document(Some(_)) => seq![WriteCall::Doctype(d)],
            _ => Seq::empty(),
        };
        head + self.node_events(d)
    }

    fn push_node_events(&self, h: Handle, out: &mut Vec<WriteCall>)
        requires
            self.wf(),
            self.valid(h),
        ensures
            final(out)@ == old(out)@ + self.node_events(h),
        decreases self.rank_of(h), 1int,
    {
        proof {
            self.lemma_node(h);
        }
        match &self.nodes[h.id].data {
            NodeData::Comment(_) => {
                out.push(WriteCall::Comment(h));
            },
            NodeData::Text(_) => {
                out.push(WriteCall::Text(h));
            },
            NodeData::Document(_) => {
                self.push_list_events(h, out);
            },
            NodeData::Element(_, _, kind) => {
                let ghost start = out@;
                out.push(WriteCall::StartElem(h));
                let ghost mid = out@;
                match kind {
                    ElementKind::Template(d) => {
                        proof {
                            self.lemma_node(*d);
                            assert(self.rank_of(*d) < self.rank_of(h));
                        }
                        self.push_list_events(*d, out);
                    },
                    _ => {
                        self.push_list_events(h, out);
                    },
                }
                out.push(WriteCall::EndElem(h));
                proof {
                    assert(out@ =~= start + (seq![WriteCall::StartElem(h)] + (out@.subrange(mid.len() as int, out@.len() - 1)) + seq![WriteCall::EndElem(h)]));
                }
            },
        }
    }

    fn push_list_events(&self, p: Handle, out: &mut Vec<WriteCall>)
        requires
            self.wf(),
            self.valid(p),
        ensures
            final(out)@ == old(out)@ + self.list_events(p, self.children_of(p).len() as int),
        decreases self.rank_of(p), 0int,
    {
        proof {
            self.lemma_node(p);
        }
        let ghost start = out@;
        let n = self.nodes[p.id].children.len();
        let mut i: usize = 0;
        while i < n
            invariant
                self.wf(),
                self.valid(p),
                self.node_wf(p),
                n == self.children_of(p).len(),
                i <= n,
                out@ == start + self.list_events(p, i as int),
            decreases n - i,
        {
            let c = self.nodes[p.id].children[i];
            proof {
                assert(c == self.children_of(p)[i as int]);
                self.lemma_node(c);
                assert(self.rank_of(c) < self.rank_of(p));
            }
            let ghost before = out@;
            self.push_node_events(c, out);
            proof {
                assert(out@ =~= start + self.list_events(p, i + 1));
            }
            i = i + 1;
        }
    }

    /// The writer calls for the document `d`, in order.
    pub fn document_writes(&self, d: Handle) -> (r: Vec<WriteCall>)
        requires
            self.wf(),
            self.valid(d),
            self.is_document(d),
        ensures
            r@ == self.document_events(d),
    {
        let mut out: Vec<WriteCall> = Vec::new();
        if let NodeData::Document(Some(_)) = &self.nodes[d.id].data {
            out.push(WriteCall::Doctype(d));
        }
        let ghost head = out@;
        self.push_node_events(d, &mut out);
        proof {
            assert(head =~= match self.data_of(d) {
                NodeData::Document(Some(_)) => seq![WriteCall::Doctype(d)],
                _ => Seq::<WriteCall>::empty(),
            });
        }
        out
    }

    /// A node that a fragment keeps: anything but the `head` and `body`
    /// elements that the parser puts around a fragment.
    pub open spec fn is_fragment_node(self, h: Handle) -> bool {
        match self.data_of(h) {
            NodeData::Element(n, _, _) => !n.is_html_spec("head"@) && !n.is_html_spec("body"@),
            _ => true,
        }
    }

    pub open spec fn fragment_filter(self) -> spec_fn(Handle) -> bool {
        |h: Handle| self.is_fragment_node(h)
    }

    /// The nodes of a parsed fragment: the children of the document's root
    /// element, leaving out `head` and `body` elements, in order.
    pub fn fragment(&self) -> (r: Vec<Handle>)
        requires
            self.wf(),
            self.children_of(self.doc_handle()).len() == 1,
            self.is_element(self.children_of(self.doc_handle())[0]),
        ensures
            r@ == self.children_of(self.children_of(self.doc_handle())[0]).filter(
                self.fragment_filter(),
            ),
    {
        proof {
            self.lemma_node(self.document);
        }
        let html = self.nodes[self.document.id].children[0];
        proof {
            assert(html == self.children_of(self.document)[0]);
            self.lemma_node(html);
        }
        let children = &self.nodes[html.id].children;
        let ghost pred = self.fragment_filter();
        let mut r: Vec<Handle> = Vec::new();
        let mut i: usize = 0;
        while i < children.len()
            invariant
                self.wf(),
                pred == self.fragment_filter(),
                children@ == self.children_of(html),
                forall|j: int| 0 <= j < children@.len() ==> self.valid(#[trigger] children@[j]),
                i <= children.len(),
                r@ == children@.take(i as int).filter(pred),
            decreases children.len() - i,
        {
            let c = children[i];
            let keep = match &self.nodes[c.id].data {
                NodeData::Element(n, _, _) => !n.is_html("head") && !n.is_html("body"),
                _ => true,
            };
            proof {
                reveal(Seq::filter);
                assert(children@.take(i + 1).drop_last() =~= children@.take(i as int));
                assert(keep == pred(c));
            }
            if keep {
                r.push(c);
            }
            i = i + 1;
        }
        proof {
            assert(children@.take(i as int) =~= children@);
        }
        r
    }

    /// The node a writer call names has the payload the call writes.
    pub open spec fn call_fits(self, w: WriteCall) -> bool {
        match w {
            WriteCall::StartElem(h) => self.valid(h) && self.is_element(h),
            WriteCall::EndElem(h) => self.valid(h) && self.is_element(h),
            WriteCall::Text(h) => self.valid(h) && self.data_of(h) is Text,
            WriteCall::Comment(h) => self.valid(h) && self.data_of(h) is Comment,
            WriteCall::Doctype(h) => self.valid(h) && self.data_of(h) matches NodeData::Document(
                Some(_),
            ),
        }
    }

    proof fn lemma_node_events_fit(self, h: Handle)
        requires
            self.wf(),
            self.valid(h),
        ensures
            forall|i: int|
                0 <= i < self.node_events(h).len() ==> self.call_fits(#[trigger] self.node_events(h)[i]),
        decreases self.rank_of(h), 1int, 0int,
    {
        self.lemma_node(h);
        match self.data_of(h) {
            NodeData::Document(_) => {
                self.lemma_list_events_fit(h, self.children_of(h).len() as int);
                assert(self.node_events(h) == self.list_events(h, self.children_of(h).len() as int));
            },
            NodeData::Element(_, _, kind) => {
                let inner = match kind {
                    ElementKind::Template(d) => {
                        self.lemma_node(d);
                        self.lemma_list_events_fit(d, self.children_of(d).len() as int);
                        self.list_events(d, self.children_of(d).len() as int)
                    },
                    _ => {
                        self.lemma_list_events_fit(h, self.children_of(h).len() as int);
                        self.list_events(h, self.children_of(h).len() as int)
                    },
                };
                let all = seq![WriteCall::StartElem(h)] + inner + seq![WriteCall::EndElem(h)];
                assert(self.node_events(h) == all);
                assert forall|i: int| 0 <= i < all.len() implies self.call_fits(#[trigger] all[i]) by {
                    if 1 <= i < all.len() - 1 {
                        assert(all[i] == inner[i - 1]);
                    }
                }
            },
            NodeData::Comment(_) => {
                assert(self.node_events(h) == seq![WriteCall::Comment(h)]);
            },
            NodeData::Text(_) => {
                assert(self.node_events(h) == seq![WriteCall::Text(h)]);
            },
        }
    }

    proof fn lemma_list_events_fit(self, p: Handle, n: int)
        requires
            self.wf(),
            self.valid(p),
        ensures
            forall|i: int|
                0 <= i < self.list_events(p, n).len() ==> self.call_fits(
                    #[trigger] self.list_events(p, n)[i],
                ),
        decreases self.rank_of(p), 0int, n,
    {
        if 0 < n <= self.children_of(p).len() {
            self.lemma_node(p);
            let c = self.children_of(p)[n - 1];
            self.lemma_list_events_fit(p, n - 1);
            self.lemma_node(c);
            self.lemma_node_events_fit(c);
            let a = self.list_events(p, n - 1);
            let b = self.node_events(c);
            assert(self.list_events(p, n) == a + b);
            assert forall|i: int| 0 <= i < (a + b).len() implies self.call_fits(#[trigger] (a
                + b)[i]) by {
                if i >= a.len() {
                    assert((a + b)[i] == b[i - a.len()]);
                }
            }
        }
    }

    pub proof fn lemma_document_events_fit(self, d: Handle)
        requires
            self.wf(),
            self.valid(d),
            self.is_document(d),
        ensures
            forall|i: int|
                0 <= i < self.document_events(d).len() ==> self.call_fits(
                    #[trigger] self.document_events(d)[i],
                ),
    {
        self.lemma_node_events_fit(d);
        let head = match self.data_of(d) {
            NodeData::Document(Some(_)) => seq![WriteCall::Doctype(d)],
            _ => Seq::empty(),
        };
        let all = head + self.node_events(d);
        assert forall|i: int| 0 <= i < all.len() implies self.call_fits(#[trigger] all[i]) by {
            if i >= head.len() {
                assert(all[i] == self.node_events(d)[i - head.len()]);
            }
        }
    }

    /// Inserts `child` before `element` when `element` has a container, and
    /// else appends it to `prev_element`.
    pub fn append_based_on_parent_node(
        &mut self,
        element: Handle,
        prev_element: Handle,
        child: NodeOrText,
    )
        requires
            old(self).wf(),
            old(self).valid(element),
            !old(self).is_document(element),
            old(self).valid(prev_element),
            old(self).len() + 2 < usize::MAX,
            old(self).parent_of(element) matches Some(ph) ==> {
                &&& !old(self).is_document(ph.handle())
                &&& child matches NodeOrText::AppendNode(c) ==> {
                    &&& old(self).valid(c)
                    &&& !old(self).is_document(c)
                    &&& old(self).parent_of(c) is None
                    &&& !old(self).anc_or_self(c, ph.handle())
                }
            },
            old(self).parent_of(element) is None ==> {
                &&& old(self).is_container(old(self).insertion_target(prev_element))
                &&& old(self).is_document(old(self).insertion_target(prev_element))
                    ==> old(self).children_of(old(self).insertion_target(prev_element)).len() == 0
                &&& child matches NodeOrText::AppendNode(c) ==> {
                    &&& old(self).valid(c)
                    &&& !old(self).is_document(c)
                    &&& old(self).parent_of(c) is None
                    &&& !old(self).anc_or_self(c, prev_element)
                }
            },
        ensures
            old(self).parent_of(element) is Some ==> old(self).inserted_before(
                *final(self),
                element,
                child,
            ),
            old(self).parent_of(element) is None ==> old(self).appended(
                *final(self),
                prev_element,
                child,
            ),
    {
        match self.append_before_sibling(element, child) {
            Ok(()) => {},
            Err(child) => {
                self.append(prev_element, child);
            },
        }
    }

    /// How many nodes have been created.
    pub fn node_count(&self) -> (n: usize)
        ensures
            n == self.len(),
    {
        self.nodes.len()
    }

    /// A node that holds nothing is above nothing but itself.
    pub proof fn lemma_holds_nothing_is_above_nothing(self, c: Handle, x: Handle)
        requires
            self.wf(),
            self.valid(c),
            self.valid(x),
            c != x,
            self.children_of(c).len() == 0,
            !self.is_template(c),
        ensures
            !self.anc_or_self(c, x),
    {
        if self.anc_or_self(c, x) {
            self.lemma_anc_holds(c, x);
            let k = choose|k: Handle| self.holds(c, k);
        }
    }

    /// The session document is a node of the tree, with no container.
    pub proof fn lemma_document(self)
        requires
            self.wf(),
        ensures
            self.valid(self.doc_handle()),
            self.is_document(self.doc_handle()),
            self.parent_of(self.doc_handle()) is None,
    {
    }

    /// A child list names each child once, and only nodes that are not
    /// documents; nothing holds itself.
    pub proof fn lemma_children(self, p: Handle)
        requires
            self.wf(),
            self.valid(p),
        ensures
            self.children_of(p).no_duplicates(),
            forall|i: int|
                0 <= i < self.children_of(p).len() ==> self.valid(#[trigger] self.children_of(p)[i])
                    && !self.is_document(self.children_of(p)[i]),
            !self.holds(p, p),
    {
        self.lemma_node(p);
        if self.children_of(p).contains(p) {
            let i = choose|i: int| 0 <= i < self.children_of(p).len() && self.children_of(p)[i] == p;
            assert(self.children_of(p)[i] == p);
        }
    }

    /// Every node is above itself.
    pub proof fn lemma_anc_or_self_refl(self, a: Handle)
        ensures
            self.anc_or_self(a, a),
    {
    }

    /// Nothing but a node with no container is above it.
    pub proof fn lemma_above_root(self, a: Handle, x: Handle)
        requires
            self.parent_of(x) is None,
            a != x,
        ensures
            !self.anc_or_self(a, x),
    {
    }

    // ---- laws ----

    /// In a well-formed tree a node's back-reference names exactly the
    /// container that holds it: a container holds the node if and only if the
    /// node points back to it, so at most one container holds it, and a node
    /// with no back-reference is held by none.
    pub proof fn lemma_back_references(self, c: Handle)
        requires
            self.wf(),
            self.valid(c),
        ensures
            forall|p: Handle|
                self.valid(p) ==> (#[trigger] self.holds(p, c) <==> self.parent_of(c) == Some(
                    self.tag(p),
                )),
            forall|p: Handle, q: Handle|
                self.valid(p) && self.valid(q) && #[trigger] self.holds(p, c) && #[trigger] self.holds(
                    q,
                    c,
                ) ==> p == q,
            self.parent_of(c) is None ==> forall|p: Handle| self.valid(p) ==> !#[trigger] self.holds(p, c),
    {
        assert forall|p: Handle| self.valid(p) implies (#[trigger] self.holds(p, c)
            <==> self.parent_of(c) == Some(self.tag(p))) by {
            if self.parent_of(c) == Some(self.tag(p)) {
                assert(self.tag(p).handle() == p);
            }
        }
        assert forall|p: Handle, q: Handle|
            self.valid(p) && self.valid(q) && #[trigger] self.holds(p, c) && #[trigger] self.holds(
                q,
                c,
            ) implies p == q by {
            assert(self.tag(p).handle() == p);
            assert(self.tag(q).handle() == q);
        }
    }

    /// A template's own child list is always empty: what it holds is in its
    /// contents document.
    pub proof fn lemma_template_has_no_children(self, t: Handle)
        requires
            self.wf(),
            self.valid(t),
            self.is_template(t),
        ensures
            self.children_of(t).len() == 0,
            self.valid(self.contents(t)),
            self.is_document(self.contents(t)),
            self.parent_of(self.contents(t)) == Some(ParentHandle::NodeHandle(t)),
    {
        self.lemma_node(t);
        assert(self.holds(t, self.contents(t)));
    }

    /// Taking a node out of its container and appending it again leaves it
    /// once in the child list it was appended to, held by no other container,
    /// and pointing back to that container only.
    pub proof fn law_remove_then_append(d0: Dom, d1: Dom, d2: Dom, x: Handle, p: Handle)
        requires
            d0.wf(),
            d0.valid(x),
            d0.parent_of(x) is Some,
            d0.removed(d1, x),
            d1.valid(p),
            d1.appended(d2, p, NodeOrText::AppendNode(x)),
        ensures
            ({
                let t = d1.insertion_target(p);
                &&& d2.children_of(t).no_duplicates()
                &&& d2.children_of(t).last() == x
                &&& d2.parent_of(x) == Some(d2.tag(t))
                &&& forall|q: Handle| d2.valid(q) ==> (#[trigger] d2.holds(q, x) <==> q == t)
            }),
    {
        let t = d1.insertion_target(p);
        d1.lemma_node(p);
        if d1.is_template(p) {
            assert(d1.holds(p, t));
        }
        assert(d2.valid(t));
        assert(d2.data_of(t) == d1.data_of(t));
        assert(d2.tag(t) == d1.tag(t));
        d2.lemma_node(t);
        d2.lemma_back_references(x);
        assert(d2.holds(t, x)) by {
            assert(d2.children_of(t)[d2.children_of(t).len() - 1] == x);
        }
    }

    /// Two nodes created one after the other are never the same node, however
    /// alike they are.
    pub proof fn law_distinct_creations(d0: Dom, d1: Dom, d2: Dom, h1: Handle, h2: Handle)
        requires
            d0.created(d1, h1),
            d1.created(d2, h2),
        ensures
            h1 != h2,
    {
    }

    /// Inserting before a sibling puts the new node immediately before it, and
    /// keeps everything else in the container in its order.
    pub proof fn law_insert_before_keeps_order(d0: Dom, d1: Dom, sibling: Handle, child: NodeOrText)
        requires
            d0.wf(),
            d0.valid(sibling),
            d0.parent_of(sibling) is Some,
            d0.inserted_before(d1, sibling, child),
        ensures
            ({
                let p = d0.parent_of(sibling)->0.handle();
                let c = match child {
                    NodeOrText::AppendNode(c) => c,
                    NodeOrText::AppendText(_) => d0.fresh(),
                };
                let before = d0.children_of(p);
                let after = d1.children_of(p);
                exists|k: int|
                    0 <= k < before.len() && after[k] == c && after[k + 1] == sibling
                        && after.take(k) == before.take(k) && after.skip(k + 1) == before.skip(k)
            }),
    {
        let p = d0.parent_of(sibling)->0.handle();
        let c = match child {
            NodeOrText::AppendNode(c) => c,
            NodeOrText::AppendText(_) => d0.fresh(),
        };
        let before = d0.children_of(p);
        let after = d1.children_of(p);
        let k = choose|k: int|
            0 <= k < before.len() && before[k] == sibling && after == before.insert(k, c);
        before.insert_ensures(k, c);
        assert(after.take(k) =~= before.take(k));
        assert(after.skip(k + 1) =~= before.skip(k));
    }
}

/// Removing an item from a list without duplicates.
proof fn lemma_remove_facts(s: Seq<Handle>, idx: int)
    requires
        0 <= idx < s.len(),
        s.no_duplicates(),
    ensures
        s.remove(idx).no_duplicates(),
        forall|k: Handle| #[trigger] s.remove(idx).contains(k) <==> (s.contains(k) && k != s[idx]),
{
    s.remove_ensures(idx);
    let n = s.remove(idx);
    assert forall|k: Handle| #[trigger] n.contains(k) <==> (s.contains(k) && k != s[idx]) by {
        if n.contains(k) {
            let i = choose|i: int| 0 <= i < n.len() && n[i] == k;
            if i < idx {
                assert(s[i] == k);
            } else {
                assert(s[i + 1] == k);
            }
        }
        if s.contains(k) && k != s[idx] {
            let i = choose|i: int| 0 <= i < s.len() && s[i] == k;
            if i < idx {
                assert(n[i] == k);
            } else {
                assert(n[i - 1] == k);
            }
        }
    }
    assert forall|i: int, j: int| 0 <= i < n.len() && 0 <= j < n.len() && i != j implies n[i]
        != n[j] by {
        let si = if i < idx { i } else { i + 1 };
        let sj = if j < idx { j } else { j + 1 };
        assert(n[i] == s[si]);
        assert(n[j] == s[sj]);
    }
}

/// Inserting a new item into a list without duplicates.
proof fn lemma_insert_facts(s: Seq<Handle>, idx: int, c: Handle)
    requires
        0 <= idx <= s.len(),
        !s.contains(c),
        s.no_duplicates(),
    ensures
        s.insert(idx, c).no_duplicates(),
        forall|k: Handle| #[trigger] s.insert(idx, c).contains(k) <==> (s.contains(k) || k == c),
{
    s.insert_ensures(idx, c);
    let n = s.insert(idx, c);
    assert forall|k: Handle| #[trigger] n.contains(k) <==> (s.contains(k) || k == c) by {
        if n.contains(k) {
            let i = choose|i: int| 0 <= i < n.len() && n[i] == k;
            if i < idx {
                assert(s[i] == k);
            } else if i > idx {
                assert(s[i - 1] == k);
            }
        }
        if s.contains(k) {
            let i = choose|i: int| 0 <= i < s.len() && s[i] == k;
            if i < idx {
                assert(n[i] == k);
            } else {
                assert(n[i + 1] == k);
            }
        }
        if k == c {
            assert(n[idx] == c);
        }
    }
    assert forall|i: int, j: int| 0 <= i < n.len() && 0 <= j < n.len() && i != j implies n[i]
        != n[j] by {
        if i != idx && j != idx {
            let si = if i < idx { i } else { i - 1 };
            let sj = if j < idx { j } else { j - 1 };
            assert(n[i] == s[si]);
            assert(n[j] == s[sj]);
        } else if i == idx {
            let sj = if j < idx { j } else { j - 1 };
            assert(n[j] == s[sj]);
        } else {
            let si = if i < idx { i } else { i - 1 };
            assert(n[i] == s[si]);
        }
    }
}

} // verus!
