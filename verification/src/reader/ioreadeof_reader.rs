//! A reader that holds the bytes an external source yielded: the source is
//! drained eagerly into an owned buffer before the reader is built, so
//! scanning stays purely in-memory. A failed drain yields an empty buffer.

use vstd::prelude::*;

use std::rc::Rc;

use crate::data::Datum;
use crate::marker::Marker;
use crate::reader::Read;
use crate::symbol::bytes_match_at;

verus! {

use crate::reader::bytes_reader::rc_clone;
use crate::reader::bytes_reader::rc_vec;

/// The single backing segment of an [`IoreadeofReader`]: duplicating the
/// handle shares the buffer instead of copying it.
#[derive(Clone, Debug)]
pub struct IoreadeofDatum {
    content: Rc<Vec<u8>>,
}

impl Datum for IoreadeofDatum {
    closed spec fn bytes(&self) -> Seq<u8> {
        self.content@
    }

    fn len(&self) -> (r: usize) {
        rc_vec(&self.content).len()
    }

    fn as_slice(&self) -> (r: &[u8]) {
        rc_vec(&self.content).as_slice()
    }
}

impl IoreadeofDatum {
    /// A fresh handle to the same buffer.
    pub(crate) fn duplicate(&self) -> (r: IoreadeofDatum)
        ensures
            r.bytes() == self.bytes(),
    {
        IoreadeofDatum { content: rc_clone(&self.content) }
    }
}

/// A reader over an owned byte buffer shared by reference count.
pub struct IoreadeofReader {
    pointer: usize,
    content: IoreadeofDatum,
}

impl IoreadeofReader {
    #[verifier::type_invariant]
    spec fn type_wf(self) -> bool {
        self.pointer <= self.content.bytes().len()
    }

    /// A reader over the drained bytes with the cursor at their start; when
    /// the drain failed, callers hand in an empty buffer.
    pub fn new(data: Vec<u8>) -> (r: IoreadeofReader)
        ensures
            r.content() == data@,
            r.pos() == 0,
            r.wf(),
    {
        let n = data.len();
        IoreadeofReader { pointer: 0, content: IoreadeofDatum { content: Rc::new(data) } }
    }
}

impl Read for IoreadeofReader {
    type Datum = IoreadeofDatum;

    closed spec fn content(&self) -> Seq<u8> {
        self.content.bytes()
    }

    closed spec fn pos(&self) -> int {
        self.pointer as int
    }

    closed spec fn wf(&self) -> bool {
        self.pointer <= self.content.bytes().len() <= usize::MAX
    }

    proof fn lemma_wf(&self) {
    }

    fn has_long(&mut self, len: usize) -> (r: bool) {
        proof {
            use_type_invariant(&*self);
        }
        len <= rc_vec(&self.content.content).as_slice().len() - self.pointer
    }

    fn skip_long(&mut self, len: usize) -> (r: usize) {
        proof {
            use_type_invariant(&*self);
        }
        let avail = rc_vec(&self.content.content).as_slice().len() - self.pointer;
        let adv = if len <= avail {
            len
        } else {
            avail
        };
        self.pointer = self.pointer + adv;
        adv
    }

    fn bytes_at(&mut self, bytes: &[u8], at: usize) -> (r: bool) {
        proof {
            use_type_invariant(&*self);
        }
        let content = rc_vec(&self.content.content).as_slice();
        let avail = content.len() - self.pointer;
        if at <= avail {
            bytes_match_at(bytes, content, self.pointer + at)
        } else {
            false
        }
    }

    fn slice_at<'a>(&'a mut self, at: usize, len: usize) -> (r: Option<&'a [u8]>) {
        proof {
            use_type_invariant(&*self);
        }
        let content = rc_vec(&self.content.content).as_slice();
        let avail = content.len() - self.pointer;
        if at <= avail && len <= avail - at {
            Some(vstd::slice::slice_subrange(content, self.pointer + at, self.pointer + at + len))
        } else {
            None
        }
    }

    fn consume_long(&mut self, len: usize) -> (m: Marker) {
        let start = self.pointer;
        let n = self.skip_long(len);
        Marker::new((0, start), (0, self.pointer))
    }

    fn get_datum(&mut self, index: usize) -> (r: Option<IoreadeofDatum>) {
        if index == 0 {
            Some(self.content.duplicate())
        } else {
            None
        }
    }
}

} // verus!
