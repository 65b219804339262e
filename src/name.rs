//! Qualified names of elements and attributes, and attributes themselves.

use vstd::prelude::*;

verus! {

/// The namespace of HTML elements.
pub const HTML_NS: &'static str = "http://www.w3.org/1999/xhtml";

/// The name of an element: a namespace and a local part.
#[derive(Debug, PartialEq, Eq)]
pub struct ElementName {
    pub ns: String,
    pub local: String,
}

/// The name of an attribute: a namespace (empty for plain attributes) and a
/// local part.
#[derive(Debug, PartialEq, Eq)]
pub struct AttributeName {
    pub ns: String,
    pub local: String,
}

/// A name and a value.
#[derive(Debug, PartialEq, Eq)]
pub struct Attribute {
    pub name: AttributeName,
    pub value: String,
}

/// The abstract view of a name: its namespace and its local part.
pub struct NameView {
    pub ns: Seq<char>,
    pub local: Seq<char>,
}

impl View for ElementName {
    type V = NameView;

    open spec fn view(&self) -> NameView {
        NameView { ns: self.ns@, local: self.local@ }
    }
}

impl View for AttributeName {
    type V = NameView;

    open spec fn view(&self) -> NameView {
        NameView { ns: self.ns@, local: self.local@ }
    }
}

impl ElementName {
    pub fn new(ns: String, local: String) -> (r: ElementName)
        ensures
            r.ns == ns,
            r.local == local,
    {
        ElementName { ns, local }
    }

    /// An element name in the HTML namespace.
    pub fn html(local: &str) -> (r: ElementName)
        ensures
            r.ns@ == HTML_NS@,
            r.local@ == local@,
    {
        ElementName { ns: String::from_str(HTML_NS), local: String::from_str(local) }
    }

    /// This is the HTML element with the given local name.
    pub open spec fn is_html_spec(self, local: Seq<char>) -> bool {
        self.ns@ == HTML_NS@ && self.local@ == local
    }

    /// Whether this is the HTML element with the given local name.
    pub fn is_html(&self, local: &str) -> (r: bool)
        ensures
            r == self.is_html_spec(local@),
    {
        let ns = String::from_str(HTML_NS);
        let l = String::from_str(local);
        self.ns == ns && self.local == l
    }

    /// Whether two names are equal, part by part.
    pub fn same(&self, other: &ElementName) -> (r: bool)
        ensures
            r == (self@ == other@),
    {
        self.ns == other.ns && self.local == other.local
    }
}

impl Clone for ElementName {
    fn clone(&self) -> (r: ElementName)
        ensures
            r == *self,
    {
        ElementName { ns: self.ns.clone(), local: self.local.clone() }
    }
}

impl AttributeName {
    pub fn new(ns: String, local: String) -> (r: AttributeName)
        ensures
            r.ns == ns,
            r.local == local,
    {
        AttributeName { ns, local }
    }

    /// A plain attribute name, in no namespace.
    pub fn plain(local: &str) -> (r: AttributeName)
        ensures
            r.ns@ == Seq::<char>::empty(),
            r.local@ == local@,
    {
        AttributeName { ns: String::new(), local: String::from_str(local) }
    }

    /// Whether two names are equal, part by part.
    pub fn same(&self, other: &AttributeName) -> (r: bool)
        ensures
            r == (self@ == other@),
    {
        self.ns == other.ns && self.local == other.local
    }
}

impl Clone for AttributeName {
    fn clone(&self) -> (r: AttributeName)
        ensures
            r == *self,
    {
        AttributeName { ns: self.ns.clone(), local: self.local.clone() }
    }
}

impl Attribute {
    pub fn new(name: AttributeName, value: String) -> (r: Attribute)
        ensures
            r.name == name,
            r.value == value,
    {
        Attribute { name, value }
    }

    pub fn name(&self) -> (r: &AttributeName)
        ensures
            *r == self.name,
    {
        &self.name
    }

    pub fn value(&self) -> (r: &String)
        ensures
            *r == self.value,
    {
        &self.value
    }
}

impl Clone for Attribute {
    fn clone(&self) -> (r: Attribute)
        ensures
            r == *self,
    {
        Attribute { name: self.name.clone(), value: self.value.clone() }
    }
}

/// Some attribute of `attrs` has a name equal to `n`.
pub open spec fn has_attr_named(attrs: Seq<Attribute>, n: NameView) -> bool {
    exists|i: int| 0 <= i < attrs.len() && (#[trigger] attrs[i]).name@ == n
}

/// `attrs` after each candidate, in order, has been added unless an attribute
/// of that name is already there (among the first attributes or the
/// candidates added before it): the first value given for a name wins.
pub open spec fn merged_attrs(attrs: Seq<Attribute>, candidates: Seq<Attribute>) -> Seq<Attribute>
    decreases candidates.len(),
{
    if candidates.len() == 0 {
        attrs
    } else {
        let m = merged_attrs(attrs, candidates.drop_last());
        if has_attr_named(m, candidates.last().name@) {
            m
        } else {
            m.push(candidates.last())
        }
    }
}

/// Appends to `attrs` each candidate whose name none of its attributes has
/// at that point. A name already present keeps its value.
pub fn add_missing_attrs(attrs: &mut Vec<Attribute>, candidates: Vec<Attribute>)
    ensures
        final(attrs)@ == merged_attrs(old(attrs)@, candidates@),
{
    let ghost existing = attrs@;
    let mut i: usize = 0;
    while i < candidates.len()
        invariant
            i <= candidates.len(),
            attrs@ == merged_attrs(existing, candidates@.take(i as int)),
        decreases candidates.len() - i,
    {
        let cand = &candidates[i];
        let mut found = false;
        let mut j: usize = 0;
        while j < attrs.len()
            invariant
                j <= attrs@.len(),
                found == exists|k: int| 0 <= k < j && (#[trigger] attrs@[k]).name@ == cand.name@,
            decreases attrs.len() - j,
        {
            if attrs[j].name.same(&cand.name) {
                found = true;
            }
            j = j + 1;
        }
        proof {
            assert(candidates@.take(i + 1).drop_last() =~= candidates@.take(i as int));
            assert(candidates@.take(i + 1).last() == candidates@[i as int]);
            assert(found == has_attr_named(attrs@, cand.name@));
        }
        if !found {
            attrs.push(cand.clone());
        }
        i = i + 1;
    }
    proof {
        assert(candidates@.take(i as int) =~= candidates@);
    }
}

} // verus!
