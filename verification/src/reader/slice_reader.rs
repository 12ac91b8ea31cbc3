//! A reader over a borrowed static byte slice: one segment, no allocation.

use vstd::prelude::*;

use crate::data::Datum;
use crate::marker::Marker;
use crate::reader::Read;
use crate::symbol::bytes_match_at;

verus! {

/// The single backing segment of a [`SliceReader`].
#[derive(Copy, Clone, Debug)]
pub struct SliceDatum {
    content: &'static [u8],
}

impl Datum for SliceDatum {
    closed spec fn bytes(&self) -> Seq<u8> {
        self.content@
    }

    fn len(&self) -> (r: usize) {
        self.content.len()
    }

    fn as_slice(&self) -> (r: &[u8]) {
        self.content
    }
}

/// A reader over a borrowed static byte slice.
pub struct SliceReader {
    pointer: usize,
    content: SliceDatum,
}

impl SliceReader {
    #[verifier::type_invariant]
    spec fn type_wf(self) -> bool {
        self.pointer <= self.content.bytes().len()
    }

    /// A reader over `slice` with the cursor at its start.
    pub fn new(slice: &'static [u8]) -> (r: SliceReader)
        ensures
            r.content() == slice@,
            r.pos() == 0,
            r.wf(),
    {
        let n = slice.len();
        SliceReader { pointer: 0, content: SliceDatum { content: slice } }
    }
}

impl Read for SliceReader {
    type Datum = SliceDatum;

    closed spec fn content(&self) -> Seq<u8> {
        self.content.bytes()
    }

    closed spec fn pos(&self) -> int {
        self.pointer as int
    }

    closed spec fn wf(&self) -> bool {
        self.pointer <= self.content.bytes().len() <= usize::MAX
    }

    proof fn lemma_wf(&self) {
    }

    fn has_long(&mut self, len: usize) -> (r: bool) {
        proof {
            use_type_invariant(&*self);
        }
        len <= self.content.content.len() - self.pointer
    }

    fn skip_long(&mut self, len: usize) -> (r: usize) {
        proof {
            use_type_invariant(&*self);
        }
        let avail = self.content.content.len() - self.pointer;
        let adv = if len <= avail {
            len
        } else {
            avail
        };
        self.pointer = self.pointer + adv;
        adv
    }

    fn bytes_at(&mut self, bytes: &[u8], at: usize) -> (r: bool) {
        proof {
            use_type_invariant(&*self);
        }
        let avail = self.content.content.len() - self.pointer;
        if at <= avail {
            bytes_match_at(bytes, self.content.content, self.pointer + at)
        } else {
            false
        }
    }

    fn slice_at<'a>(&'a mut self, at: usize, len: usize) -> (r: Option<&'a [u8]>) {
        proof {
            use_type_invariant(&*self);
        }
        let avail = self.content.content.len() - self.pointer;
        if at <= avail && len <= avail - at {
            Some(
                vstd::slice::slice_subrange(
                    self.content.content,
                    self.pointer + at,
                    self.pointer + at + len,
                ),
            )
        } else {
            None
        }
    }

    fn consume_long(&mut self, len: usize) -> (m: Marker) {
        let start = self.pointer;
        let n = self.skip_long(len);
        Marker::new((0, start), (0, self.pointer))
    }

    fn get_datum(&mut self, index: usize) -> (r: Option<SliceDatum>) {
        if index == 0 {
            Some(self.content)
        } else {
            None
        }
    }
}

} // verus!
