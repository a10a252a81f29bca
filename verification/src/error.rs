use vstd::prelude::*;

verus! {

/// What can go wrong on the way of a document.
#[derive(Debug)]
pub enum StreamError {
    /// Something that is told in words
    Custom(String),
    /// The document could not be read
    Reader(xml::reader::Error),
    /// The document could not be written
    Writer(xml::writer::Error),
    /// The source could not be read
    Io(std::io::Error),
}

} // verus!
