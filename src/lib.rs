//! An HTML document tree: a sink that builds and edits the tree one
//! operation at a time, and a serializer that writes it back out.

pub mod dom;
pub mod name;
pub mod serializer;

pub use dom::{
    Doctype, Dom, ElementKind, Handle, NodeData, NodeOrText, ParentHandle, QuirksMode, WriteCall,
};
pub use name::{Attribute, AttributeName, ElementName, HTML_NS};
pub use serializer::{serialize, EmptyAttrs, Serializer};
