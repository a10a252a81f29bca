use vstd::prelude::*;
use crate::epg::{gzip_magic, is_gzip};
use crate::error::StreamError;

verus! {

/// The two bytes every gzip stream starts with.
pub const GZIP_START_BYTES: [u8; 2] = [0x1f, 0x8b];

/// A source of bytes that can tell whether it holds a gzip stream.
pub trait Compressed {
    /// Whether the source starts with the bytes of a gzip stream.
    fn is_gzipped(&mut self) -> Result<bool, StreamError>;
}

impl Compressed for Vec<u8> {
    /// Whether the bytes start with those of a gzip stream. The bytes stay
    /// as they are.
    fn is_gzipped(&mut self) -> (r: Result<bool, StreamError>)
        ensures
            r == Ok::<bool, StreamError>(gzip_magic(old(self)@)),
            final(self)@ == old(self)@,
    {
        Ok(is_gzip(self.as_slice()))
    }
}

} // verus!
