//! Writing a tree back out as HTML.
//!
//! The markup itself (tags, escaping, void elements) is produced by
//! html5ever's `HtmlSerializer`. This module decides which calls reach it and
//! in what order, and stops calling it after its first failure: that failure
//! is kept and handed back once, at the end.

use vstd::prelude::*;
use crate::dom::{Dom, Handle, NodeData, WriteCall};
use crate::name::{Attribute, ElementName};
use html5ever::serialize::{HtmlSerializer, SerializeOpts, Serializer as MarkupSerializer, TraversalScope};
use html5ever::{LocalName, Namespace, QualName};

verus! {

/// html5ever's `HtmlSerializer` over a byte buffer. Verus cannot declare that
/// type itself (its parameter is bound by `std::io::Write`), so it is held
/// here, out of Verus's sight, and reached only through the functions below.
#[verifier::external_body]
pub struct MarkupWriter {
    inner: HtmlSerializer<Vec<u8>>,
}

/// std's `io::Error`: the failure a writer reports, carried through unread.
#[verifier::external_type_specification]
#[verifier::external_body]
pub struct ExIoError(std::io::Error);

/// No attributes, for writing an element that has none.
pub struct EmptyAttrs;

impl EmptyAttrs {
    pub fn new() -> (r: EmptyAttrs) {
        EmptyAttrs
    }

    /// The (empty) list of attributes.
    pub fn attrs(&self) -> (r: Vec<Attribute>)
        ensures
            r@.len() == 0,
    {
        Vec::new()
    }
}

/// A call as the writer received it.
pub enum Written {
    StartElem(ElementName, Seq<Attribute>),
    EndElem(ElementName),
    Text(Seq<char>),
    Comment(Seq<char>),
    Doctype(Seq<char>),
}

/// What the writer receives for a call on the tree `dom`.
pub open spec fn written(dom: Dom, w: WriteCall) -> Written {
    match w {
        WriteCall::StartElem(h) => match dom.data_of(h) {
            NodeData::Element(n, a, _) => Written::StartElem(n, a@),
            _ => Written::Text(Seq::empty()),
        },
        WriteCall::EndElem(h) => match dom.data_of(h) {
            NodeData::Element(n, _, _) => Written::EndElem(n),
            _ => Written::Text(Seq::empty()),
        },
        WriteCall::Text(h) => match dom.data_of(h) {
            NodeData::Text(t) => Written::Text(t@),
            _ => Written::Text(Seq::empty()),
        },
        WriteCall::Comment(h) => match dom.data_of(h) {
            NodeData::Comment(t) => Written::Comment(t@),
            _ => Written::Comment(Seq::empty()),
        },
        WriteCall::Doctype(h) => match dom.data_of(h) {
            NodeData::Document(Some(dt)) => Written::Doctype(dt.name@),
            _ => Written::Doctype(Seq::empty()),
        },
    }
}

/// What the writer receives, in order, for the document `d` of `dom`.
pub open spec fn document_written(dom: Dom, d: Handle) -> Seq<Written> {
    dom.document_events(d).map_values(|w: WriteCall| written(dom, w))
}

/// Writing `calls` through a serializer that has handed `before` to its
/// writer, and had failed if `failed_before`, leaves it having handed `after`
/// to its writer: nothing more if it had failed; else the calls in order, up
/// to the first one that failed, or all of them.
pub open spec fn latched(
    before: Seq<Written>,
    failed_before: bool,
    calls: Seq<Written>,
    after: Seq<Written>,
    failed_after: bool,
) -> bool {
    if failed_before {
        after == before && failed_after
    } else {
        exists|k: int|
            0 <= k <= calls.len() && after == before + calls.take(k) && (failed_after ==> k >= 1)
                && (!failed_after ==> k == calls.len())
    }
}

proof fn lemma_latched_one(before: Seq<Written>, call: Written, after: Seq<Written>, failed: bool)
    requires
        after == before.push(call),
    ensures
        latched(before, false, seq![call], after, failed),
{
    let one = seq![call];
    assert(after == before + one.take(1));
}

proof fn lemma_latched_none(before: Seq<Written>, failed: bool)
    ensures
        latched(before, failed, Seq::empty(), before, failed),
{
    assert(before == before + Seq::<Written>::empty().take(0));
}

/// Latching composes: writing `calls`, then `call`, is writing `calls.push(call)`.
proof fn lemma_latched_append(
    b0: Seq<Written>,
    f0: bool,
    calls: Seq<Written>,
    b1: Seq<Written>,
    f1: bool,
    call: Written,
    b2: Seq<Written>,
    f2: bool,
)
    requires
        latched(b0, f0, calls, b1, f1),
        latched(b1, f1, seq![call], b2, f2),
    ensures
        latched(b0, f0, calls.push(call), b2, f2),
{
    if !f0 {
        let k = choose|k: int|
            0 <= k <= calls.len() && b1 == b0 + calls.take(k) && (f1 ==> k >= 1) && (!f1 ==> k
                == calls.len());
        let all = calls.push(call);
        assert(all.take(k) =~= calls.take(k));
        if f1 {
            assert(b2 == b0 + all.take(k));
        } else {
            let k2 = choose|k2: int|
                0 <= k2 <= 1 && b2 == b1 + seq![call].take(k2) && (f2 ==> k2 >= 1) && (!f2 ==> k2
                    == 1);
            if k2 == 0 {
                assert(b2 =~= b0 + all.take(k));
            } else {
                assert(b2 =~= b0 + all.take(k + 1));
            }
        }
    }
}

/// The calls a markup writer has been handed, in order, since it was made.
pub uninterp spec fn calls_of(w: MarkupWriter) -> Seq<Written>;

/// The text that html5ever's `HtmlSerializer`, made as below, writes for a
/// sequence of calls: its output depends on these calls alone.
pub uninterp spec fn html_of(calls: Seq<Written>) -> Seq<u8>;

/// Relies on html5ever's `HtmlSerializer::new`: a serializer writing into an
/// empty buffer, which supplies a missing open element rather than panic.
#[verifier::external_body]
fn new_markup_serializer() -> (r: MarkupWriter)
    ensures
        calls_of(r) == Seq::<Written>::empty(),
{
    let opts = SerializeOpts {
        traversal_scope: TraversalScope::IncludeNode,
        create_missing_parent: true,
        ..Default::default()
    };
    MarkupWriter { inner: HtmlSerializer::new(Vec::new(), opts) }
}

/// Relies on html5ever's `HtmlSerializer::start_elem`: writes a start tag and
/// its attributes; the call is handed to the writer whatever comes back.
#[verifier::external_body]
fn markup_start_elem(
    s: &mut MarkupWriter,
    name: &ElementName,
    attrs: &Vec<Attribute>,
) -> (r: Result<(), std::io::Error>)
    ensures
        calls_of(*final(s)) == calls_of(*old(s)).push(Written::StartElem(*name, attrs@)),
{
    let qname = QualName::new(None, Namespace::from(&name.ns[..]), LocalName::from(&name.local[..]));
    let names: Vec<QualName> = attrs.iter().map(
        |a| QualName::new(None, Namespace::from(&a.name.ns[..]), LocalName::from(&a.name.local[..])),
    ).collect();
    s.inner.start_elem(qname, names.iter().zip(attrs.iter()).map(|(n, a)| (n, &a.value[..])))
}

/// Relies on html5ever's `HtmlSerializer::end_elem`: writes an end tag.
#[verifier::external_body]
fn markup_end_elem(s: &mut MarkupWriter, name: &ElementName) -> (r: Result<(), std::io::Error>)
    ensures
        calls_of(*final(s)) == calls_of(*old(s)).push(Written::EndElem(*name)),
{
    s.inner.end_elem(QualName::new(None, Namespace::from(&name.ns[..]), LocalName::from(&name.local[..])))
}

/// Relies on html5ever's `HtmlSerializer::write_text`: writes text, escaped as
/// its enclosing element calls for.
#[verifier::external_body]
fn markup_text(s: &mut MarkupWriter, text: &String) -> (r: Result<(), std::io::Error>)
    ensures
        calls_of(*final(s)) == calls_of(*old(s)).push(Written::Text(text@)),
{
    s.inner.write_text(&text[..])
}

/// Relies on html5ever's `HtmlSerializer::write_comment`: writes a comment.
#[verifier::external_body]
fn markup_comment(s: &mut MarkupWriter, text: &String) -> (r: Result<(), std::io::Error>)
    ensures
        calls_of(*final(s)) == calls_of(*old(s)).push(Written::Comment(text@)),
{
    s.inner.write_comment(&text[..])
}

/// Relies on html5ever's `HtmlSerializer::write_doctype`: writes a doctype declaration.
#[verifier::external_body]
fn markup_doctype(s: &mut MarkupWriter, name: &String) -> (r: Result<(), std::io::Error>)
    ensures
        calls_of(*final(s)) == calls_of(*old(s)).push(Written::Doctype(name@)),
{
    s.inner.write_doctype(&name[..])
}

/// Relies on html5ever's `HtmlSerializer`: its buffer holds all it wrote, the
/// text for the calls it was handed.
#[verifier::external_body]
fn markup_bytes(s: MarkupWriter) -> (r: Vec<u8>)
    ensures
        r@ == html_of(calls_of(s)),
{
    s.inner.writer
}

/// A serializer that keeps the first failure of its writer and makes no
/// call to the writer after it.
pub struct Serializer {
    inner: MarkupWriter,
    error: Option<std::io::Error>,
}

impl Serializer {
    /// The calls handed to the writer so far, in order.
    pub closed spec fn written_so_far(self) -> Seq<Written> {
        calls_of(self.inner)
    }

    /// The writer has failed once.
    pub closed spec fn failed(self) -> bool {
        self.error is Some
    }

    pub fn new() -> (r: Serializer)
        ensures
            r.written_so_far() == Seq::<Written>::empty(),
            !r.failed(),
    {
        Serializer { inner: new_markup_serializer(), error: None }
    }

    fn keep(&mut self, r: Result<(), std::io::Error>)
        requires
            !old(self).failed(),
        ensures
            final(self).failed() == (r is Err),
            final(self).written_so_far() == old(self).written_so_far(),
    {
        if let Err(e) = r {
            self.error = Some(e);
        }
    }

    /// Writes the start tag of an element with the given attributes.
    pub fn start_elem(&mut self, name: &ElementName, attrs: &Vec<Attribute>)
        ensures
            latched(
                old(self).written_so_far(),
                old(self).failed(),
                seq![Written::StartElem(*name, attrs@)],
                final(self).written_so_far(),
                final(self).failed(),
            ),
    {
        if self.error.is_none() {
            let r = markup_start_elem(&mut self.inner, name, attrs);
            self.keep(r);
            proof {
                lemma_latched_one(old(self).written_so_far(), Written::StartElem(*name, attrs@), self.written_so_far(), self.failed());
            }
        }
    }

    /// Writes the end tag of an element.
    pub fn end_elem(&mut self, name: &ElementName)
        ensures
            latched(
                old(self).written_so_far(),
                old(self).failed(),
                seq![Written::EndElem(*name)],
                final(self).written_so_far(),
                final(self).failed(),
            ),
    {
        if self.error.is_none() {
            let r = markup_end_elem(&mut self.inner, name);
            self.keep(r);
            proof {
                lemma_latched_one(old(self).written_so_far(), Written::EndElem(*name), self.written_so_far(), self.failed());
            }
        }
    }

    /// Writes the payload of a text node.
    pub fn write_text(&mut self, text: &String)
        ensures
            latched(
                old(self).written_so_far(),
                old(self).failed(),
                seq![Written::Text(text@)],
                final(self).written_so_far(),
                final(self).failed(),
            ),
    {
        if self.error.is_none() {
            let r = markup_text(&mut self.inner, text);
            self.keep(r);
            proof {
                lemma_latched_one(old(self).written_so_far(), Written::Text(text@), self.written_so_far(), self.failed());
            }
        }
    }

    /// Writes a comment.
    pub fn write_comment(&mut self, text: &String)
        ensures
            latched(
                old(self).written_so_far(),
                old(self).failed(),
                seq![Written::Comment(text@)],
                final(self).written_so_far(),
                final(self).failed(),
            ),
    {
        if self.error.is_none() {
            let r = markup_comment(&mut self.inner, text);
            self.keep(r);
            proof {
                lemma_latched_one(old(self).written_so_far(), Written::Comment(text@), self.written_so_far(), self.failed());
            }
        }
    }

    /// Writes a doctype declaration.
    pub fn write_doctype(&mut self, name: &String)
        ensures
            latched(
                old(self).written_so_far(),
                old(self).failed(),
                seq![Written::Doctype(name@)],
                final(self).written_so_far(),
                final(self).failed(),
            ),
    {
        if self.error.is_none() {
            let r = markup_doctype(&mut self.inner, name);
            self.keep(r);
            proof {
                lemma_latched_one(old(self).written_so_far(), Written::Doctype(name@), self.written_so_far(), self.failed());
            }
        }
    }

    /// The markup written, or the first failure of the writer.
    pub fn error(self) -> (r: Result<Vec<u8>, std::io::Error>)
        ensures
            r is Ok <==> !self.failed(),
            r matches Ok(b) ==> b@ == html_of(self.written_so_far()),
    {
        match self.error {
            Some(e) => Err(e),
            None => Ok(markup_bytes(self.inner)),
        }
    }

    /// Writes the document `d` of `dom`: its doctype, if it has one, then its
    /// content, depth first (see [`Dom::node_events`]).
    pub fn write_document(&mut self, dom: &Dom, d: Handle)
        requires
            dom.wf(),
            dom.valid(d),
            dom.is_document(d),
        ensures
            latched(
                old(self).written_so_far(),
                old(self).failed(),
                document_written(*dom, d),
                final(self).written_so_far(),
                final(self).failed(),
            ),
    {
        let calls = dom.document_writes(d);
        let ghost all = document_written(*dom, d);
        proof {
            dom.lemma_document_events_fit(d);
            lemma_latched_none(old(self).written_so_far(), old(self).failed());
            assert(all.take(0) =~= Seq::<Written>::empty());
        }
        let mut i: usize = 0;
        while i < calls.len()
            invariant
                dom.wf(),
                calls@ == dom.document_events(d),
                all == document_written(*dom, d),
                all.len() == calls@.len(),
                forall|j: int| 0 <= j < calls@.len() ==> dom.call_fits(#[trigger] calls@[j]),
                i <= calls.len(),
                latched(
                    old(self).written_so_far(),
                    old(self).failed(),
                    all.take(i as int),
                    self.written_so_far(),
                    self.failed(),
                ),
            decreases calls.len() - i,
        {
            let ghost log0 = self.written_so_far();
            let ghost failed0 = self.failed();
            let call = calls[i];
            proof {
                assert(dom.call_fits(call));
                assert(all[i as int] == written(*dom, call));
            }
            match call {
                WriteCall::StartElem(h) => match dom.node(h) {
                    NodeData::Element(n, a, _) => self.start_elem(n, a),
                    _ => {},
                },
                WriteCall::EndElem(h) => match dom.node(h) {
                    NodeData::Element(n, _, _) => self.end_elem(n),
                    _ => {},
                },
                WriteCall::Text(h) => match dom.node(h) {
                    NodeData::Text(t) => self.write_text(t),
                    _ => {},
                },
                WriteCall::Comment(h) => match dom.node(h) {
                    NodeData::Comment(t) => self.write_comment(t),
                    _ => {},
                },
                WriteCall::Doctype(h) => match dom.node(h) {
                    NodeData::Document(Some(dt)) => self.write_doctype(&dt.name),
                    _ => {},
                },
            }
            proof {
                lemma_latched_append(
                    old(self).written_so_far(),
                    old(self).failed(),
                    all.take(i as int),
                    log0,
                    failed0,
                    all[i as int],
                    self.written_so_far(),
                    self.failed(),
                );
                assert(all.take(i as int).push(all[i as int]) =~= all.take(i + 1));
            }
            i = i + 1;
        }
        proof {
            assert(all.take(i as int) =~= all);
        }
    }
}

/// The HTML text of the document `d` of `dom`: its doctype, if it has one,
/// then its content, depth first; or the writer's first failure.
pub fn serialize(dom: &Dom, d: Handle) -> (r: Result<Vec<u8>, std::io::Error>)
    requires
        dom.wf(),
        dom.valid(d),
        dom.is_document(d),
    ensures
        r matches Ok(b) ==> b@ == html_of(document_written(*dom, d)),
{
    let mut s = Serializer::new();
    s.write_document(dom, d);
    proof {
        if !s.failed() {
            let all = document_written(*dom, d);
            let k = choose|k: int|
                0 <= k <= all.len() && s.written_so_far() == Seq::<Written>::empty() + all.take(k)
                    && (s.failed() ==> k >= 1) && (!s.failed() ==> k == all.len());
            assert(s.written_so_far() =~= all);
        }
    }
    s.error()
}

} // verus!
