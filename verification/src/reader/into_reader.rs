//! Turn plain byte carriers into readers. Adapters that drain files,
//! sockets or other external sources live outside the library: they hand
//! the drained bytes to [`IoreadeofReader::new`].

use vstd::prelude::*;

use vstd::string::StringSliceAdditionalSpecFns;

use crate::reader::BytesReader;
use crate::reader::Read;
use crate::reader::SliceReader;

verus! {

/// Relies on `core::str::from_utf8` of std: it succeeds exactly on valid
/// UTF-8.
#[verifier::external_body]
fn utf8_check(v: &[u8]) -> (r: bool)
    ensures
        r == vstd::utf8::valid_utf8(v@),
{
    core::str::from_utf8(v).is_ok()
}

/// A byte carrier that a reader can be built from.
pub trait IntoReader where Self::Reader: Read {
    /// The kind of reader this carrier turns into.
    type Reader;

    /// Consume the carrier into a reader over its bytes.
    fn into_reader(self) -> Self::Reader;
}

impl IntoReader for &'static str {
    type Reader = SliceReader;

    /// A reader over the string's UTF-8 bytes.
    fn into_reader(self) -> (r: SliceReader)
        ensures
            r.content() == self.spec_bytes(),
            r.pos() == 0,
            r.wf(),
    {
        SliceReader::new(self.as_bytes())
    }
}

impl IntoReader for String {
    type Reader = BytesReader;

    /// A reader over the string's UTF-8 bytes.
    fn into_reader(self) -> (r: BytesReader)
        ensures
            r.content() == vstd::utf8::encode_utf8(self@),
            r.pos() == 0,
            r.wf(),
    {
        BytesReader::new(crate::feed::string_to_bytes(self))
    }
}

impl IntoReader for Vec<u8> {
    type Reader = BytesReader;

    /// A reader over the buffer when it holds valid UTF-8; over nothing
    /// otherwise.
    fn into_reader(self) -> (r: BytesReader)
        ensures
            r.content() == if vstd::utf8::valid_utf8(self@) {
                self@
            } else {
                Seq::<u8>::empty()
            },
            r.pos() == 0,
            r.wf(),
    {
        if utf8_check(self.as_slice()) {
            BytesReader::new(self)
        } else {
            BytesReader::new(Vec::new())
        }
    }
}

} // verus!
