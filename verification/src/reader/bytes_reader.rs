//! A reader over an owned byte buffer shared by reference count.

use vstd::prelude::*;

use std::rc::Rc;

use crate::data::Datum;
use crate::marker::Marker;
use crate::reader::Read;
use crate::symbol::bytes_match_at;

verus! {

/// Relies on `Rc::clone` of std: the new handle aliases the same buffer, so
/// it holds the same bytes; nothing is copied.
#[verifier::external_body]
pub(crate) fn rc_clone(rc: &Rc<Vec<u8>>) -> (r: Rc<Vec<u8>>)
    ensures
        r@ == rc@,
{
    Rc::clone(rc)
}

/// Relies on `Rc::deref` of std: a shared handle reads the buffer it holds.
#[verifier::external_body]
pub(crate) fn rc_vec(rc: &Rc<Vec<u8>>) -> (r: &Vec<u8>)
    ensures
        r@ == rc@,
{
    &**rc
}

/// The single backing segment of a [`BytesReader`]: duplicating the handle
/// shares the buffer instead of copying it.
#[derive(Clone, Debug)]
pub struct BytesDatum {
    content: Rc<Vec<u8>>,
}

impl Datum for BytesDatum {
    closed spec fn bytes(&self) -> Seq<u8> {
        self.content@
    }

    fn len(&self) -> (r: usize) {
        rc_vec(&self.content).len()
    }

    fn as_slice(&self) -> (r: &[u8]) {
        rc_vec(&self.content).as_slice()
    }
}

impl BytesDatum {
    /// A fresh handle to the same buffer.
    pub(crate) fn duplicate(&self) -> (r: BytesDatum)
        ensures
            r.bytes() == self.bytes(),
    {
        BytesDatum { content: rc_clone(&self.content) }
    }
}

/// A reader over an owned byte buffer shared by reference count.
pub struct BytesReader {
    pointer: usize,
    content: BytesDatum,
}

impl BytesReader {
    #[verifier::type_invariant]
    spec fn type_wf(self) -> bool {
        self.pointer <= self.content.bytes().len()
    }

    /// A reader over `data` with the cursor at its start.
    pub fn new(data: Vec<u8>) -> (r: BytesReader)
        ensures
            r.content() == data@,
            r.pos() == 0,
            r.wf(),
    {
        let n = data.len();
        BytesReader { pointer: 0, content: BytesDatum { content: Rc::new(data) } }
    }
}

impl Read for BytesReader {
    type Datum = BytesDatum;

    closed spec fn content(&self) -> Seq<u8> {
        self.content.bytes()
    }

    closed spec fn pos(&self) -> int {
        self.pointer as int
    }

    closed spec fn wf(&self) -> bool {
        self.pointer <= self.content.bytes().len() <= usize::MAX
    }

    proof fn lemma_wf(&self) {
    }

    fn has_long(&mut self, len: usize) -> (r: bool) {
        proof {
            use_type_invariant(&*self);
        }
        len <= rc_vec(&self.content.content).as_slice().len() - self.pointer
    }

    fn skip_long(&mut self, len: usize) -> (r: usize) {
        proof {
            use_type_invariant(&*self);
        }
        let avail = rc_vec(&self.content.content).as_slice().len() - self.pointer;
        let adv = if len <= avail {
            len
        } else {
            avail
        };
        self.pointer = self.pointer + adv;
        adv
    }

    fn bytes_at(&mut self, bytes: &[u8], at: usize) -> (r: bool) {
        proof {
            use_type_invariant(&*self);
        }
        let content = rc_vec(&self.content.content).as_slice();
        let avail = content.len() - self.pointer;
        if at <= avail {
            bytes_match_at(bytes, content, self.pointer + at)
        } else {
            false
        }
    }

    fn slice_at<'a>(&'a mut self, at: usize, len: usize) -> (r: Option<&'a [u8]>) {
        proof {
            use_type_invariant(&*self);
        }
        let content = rc_vec(&self.content.content).as_slice();
        let avail = content.len() - self.pointer;
        if at <= avail && len <= avail - at {
            Some(vstd::slice::slice_subrange(content, self.pointer + at, self.pointer + at + len))
        } else {
            None
        }
    }

    fn consume_long(&mut self, len: usize) -> (m: Marker) {
        let start = self.pointer;
        let n = self.skip_long(len);
        Marker::new((0, start), (0, self.pointer))
    }

    fn get_datum(&mut self, index: usize) -> (r: Option<BytesDatum>) {
        if index == 0 {
            Some(self.content.duplicate())
        } else {
            None
        }
    }
}

} // verus!
