use vstd::prelude::*;

verus! {

/// An attribute of an element: its local name and its value.
#[derive(Debug, Clone, PartialEq, Eq)]
pub struct Attribute {
    pub name: String,
    pub value: String,
}

/// One event of a document that is read.
#[derive(Debug, Clone, PartialEq, Eq)]
pub enum XmlEvent {
    /// An element opens; `name` is its local name
    StartElement { name: String, attributes: Vec<Attribute> },
    /// The element that is open closes
    EndElement,
    /// Text inside an element
    Characters(String),
    /// The document is at its end
    EndDocument,
    /// Anything else: the document's declaration, a comment, a processing
    /// instruction, a CDATA section, white space
    Other,
}

} // verus!
