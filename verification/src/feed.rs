//! Buffered byte feeding for the scanner: resizable chunks with a skip
//! offset, a feed that serves and drops prefixes, and cursor-based readers
//! over borrowed slices and owned buffers.

use vstd::prelude::*;

use vstd::string::StringSliceAdditionalSpecFns;

use crate::symbol::Symbol;
use crate::symbol::sym_matches_at;

verus! {

/// `len` bytes requested, `avail` at hand: how many are served.
pub open spec fn clamped(len: int, avail: int) -> int {
    if len <= avail {
        len
    } else {
        avail
    }
}

/// Relies on `Vec::capacity` of std: the capacity is at least the length.
#[verifier::external_body]
fn vec_capacity(v: &Vec<u8>) -> (r: usize)
    ensures
        r >= v@.len(),
{
    v.capacity()
}

/// A byte buffer with a skip offset: the bytes before `skip` have been
/// served already and no longer count as content.
#[derive(Clone, Debug)]
pub struct Chunk {
    capa: usize,
    /// How many leading buffer bytes are no longer content.
    pub skip: usize,
    cell: Option<Vec<u8>>,
}

impl Chunk {
    /// The whole backing buffer, skipped bytes included.
    pub closed spec fn raw(&self) -> Seq<u8> {
        match self.cell {
            Some(v) => v@,
            None => Seq::empty(),
        }
    }

    /// The buffer is present and the skip offset lies inside it.
    pub closed spec fn wf(&self) -> bool {
        &&& self.cell is Some
        &&& self.skip <= self.raw().len()
    }

    /// The skip offset, as seen by contracts.
    pub closed spec fn spec_skipped(&self) -> int {
        self.skip as int
    }

    /// The content: the backing buffer after the skip offset.
    pub closed spec fn view(&self) -> Seq<u8> {
        self.raw().skip(self.skip as int)
    }

    /// An empty chunk that asks for room for `capacity` bytes.
    pub fn with_capacity(capacity: usize) -> (r: Chunk)
        ensures
            r.wf(),
            r.raw() == Seq::<u8>::empty(),
            r.view() == Seq::<u8>::empty(),
            r.spec_skipped() == 0,
    {
        let r = Chunk { capa: capacity, skip: 0, cell: Some(Vec::with_capacity(capacity)) };
        proof {
            assert(r.view() =~= Seq::<u8>::empty());
        }
        r
    }

    /// How many bytes the backing buffer can hold without growing.
    pub fn capacity(&self) -> (r: usize)
        requires
            self.wf(),
        ensures
            r >= self.raw().len(),
    {
        match &self.cell {
            Some(v) => vec_capacity(v),
            None => 0,
        }
    }

    /// Drop all content and reset the skip offset.
    pub fn clear(&mut self)
        requires
            old(self).wf(),
        ensures
            final(self).wf(),
            final(self).raw() == Seq::<u8>::empty(),
            final(self).view() == Seq::<u8>::empty(),
            final(self).spec_skipped() == 0,
    {
        self.skip = 0;
        match &mut self.cell {
            Some(v) => v.clear(),
            None => (),
        }
        proof {
            assert(self.view() =~= Seq::<u8>::empty());
        }
    }

    /// How many content bytes the chunk holds.
    pub fn len(&self) -> (r: usize)
        requires
            self.wf(),
        ensures
            r == self.view().len(),
    {
        let n = match &self.cell {
            Some(v) => v.len(),
            None => 0,
        };
        n - self.skip
    }

    /// The current skip offset.
    pub fn skipped(&self) -> (r: usize)
        ensures
            r == self.spec_skipped(),
    {
        self.skip
    }

    /// Set the skip offset. An offset inside the buffer leaves the chunk
    /// well-formed, with the bytes from the offset on as its content.
    pub fn skip(&mut self, skip: usize)
        ensures
            final(self).spec_skipped() == skip,
            final(self).raw() == old(self).raw(),
            old(self).wf() && skip <= old(self).raw().len() ==> final(self).wf()
                && final(self).view() == old(self).raw().skip(skip as int),
    {
        self.skip = skip;
    }

    /// Append one byte to the backing buffer.
    pub fn push_byte(&mut self, byte: u8)
        requires
            old(self).wf(),
        ensures
            final(self).wf(),
            final(self).spec_skipped() == old(self).spec_skipped(),
            final(self).raw() == old(self).raw().push(byte),
            final(self).view() == old(self).view().push(byte),
    {
        match &mut self.cell {
            Some(v) => v.push(byte),
            None => (),
        }
        proof {
            assert(self.view() =~= old(self).view().push(byte));
        }
    }

    /// Append a slice of bytes to the backing buffer.
    pub fn push_slice(&mut self, slice: &[u8])
        requires
            old(self).wf(),
        ensures
            final(self).wf(),
            final(self).spec_skipped() == old(self).spec_skipped(),
            final(self).raw() == old(self).raw() + slice@,
            final(self).view() == old(self).view() + slice@,
    {
        match &mut self.cell {
            Some(v) => {
                let ghost pre = v@;
                v.extend_from_slice(slice);
                proof {
                    assert(v@ =~= pre + slice@);
                }
            },
            None => (),
        }
        proof {
            assert(self.view() =~= old(self).view() + slice@);
        }
    }

    /// Append an owned buffer of bytes to the backing buffer.
    pub fn push_vec(&mut self, slice: Vec<u8>)
        requires
            old(self).wf(),
        ensures
            final(self).wf(),
            final(self).spec_skipped() == old(self).spec_skipped(),
            final(self).raw() == old(self).raw() + slice@,
            final(self).view() == old(self).view() + slice@,
    {
        self.push_slice(slice.as_slice());
    }

    /// Split the content at `at`: the chunk keeps the first `at` content
    /// bytes, the returned chunk takes the rest.
    pub fn split_off(&mut self, at: usize) -> (r: Chunk)
        requires
            old(self).wf(),
        ensures
            final(self).wf(),
            r.wf(),
            final(self).view() == old(self).view().take(clamped(at as int, old(self).view().len() as int)),
            r.view() == old(self).view().skip(clamped(at as int, old(self).view().len() as int)),
    {
        let chunk_len = self.len();
        let mut buf = match self.cell.take() {
            Some(v) => v,
            None => Vec::new(),
        };
        if chunk_len <= at {
            self.cell = Some(buf);
            let r = Chunk::with_capacity(0);
            proof {
                assert(*self =~= *old(self));
                assert(old(self).view().take(old(self).view().len() as int) =~= old(self).view());
                assert(r.view() =~= old(self).view().skip(old(self).view().len() as int));
            }
            r
        } else {
            let blen = buf.len();
            proof {
                assert(self.skip + at < blen);
            }
            let off_vec = buf.split_off(self.skip + at);
            self.cell = Some(buf);
            let mut off = Chunk::with_capacity(0);
            off.push_vec(off_vec);
            proof {
                assert(self.view() =~= old(self).view().take(at as int));
                assert(off.view() =~= old(self).view().skip(at as int));
            }
            off
        }
    }

    /// Keep at most `len` content bytes, dropping the rest.
    pub fn truncate(&mut self, len: usize)
        requires
            old(self).wf(),
        ensures
            final(self).wf(),
            final(self).spec_skipped() == old(self).spec_skipped(),
            final(self).view() == old(self).view().take(
                clamped(len as int, old(self).view().len() as int),
            ),
    {
        let skp = self.skip;
        match &mut self.cell {
            Some(v) => {
                let vl = v.len();
                let end = if len <= vl - skp {
                    skp + len
                } else {
                    vl
                };
                v.truncate(end);
            },
            None => (),
        }
        proof {
            assert(self.view() =~= old(self).view().take(
                clamped(len as int, old(self).view().len() as int),
            ));
        }
    }

    /// Move the content to the front of the backing buffer and reset the
    /// skip offset; the content itself is unchanged.
    pub fn wipe_skipped(&mut self)
        requires
            old(self).wf(),
        ensures
            final(self).wf(),
            final(self).spec_skipped() == 0,
            final(self).view() == old(self).view(),
    {
        if self.skip == 0 {
            return;
        }
        let skp = self.skip;
        match &mut self.cell {
            Some(v) => {
                let len = v.len();
                let n = len - skp;
                let mut i: usize = 0;
                while i < n
                    invariant
                        skp + n == len,
                        len == v@.len(),
                        0 < skp,
                        i <= n,
                        forall|j: int| 0 <= j < i ==> v@[j] == old(self).view()[j],
                        forall|j: int| i <= j < len - skp ==> v@[skp + j] == old(self).view()[j],
                    decreases n - i,
                {
                    let b = v[skp + i];
                    let slot = vstd::std_specs::vec::vec_index_mut(v, i);
                    *slot = b;
                    i += 1;
                }
                v.truncate(n);
            },
            None => (),
        }
        self.skip = 0;
        proof {
            assert(self.view() =~= old(self).view());
        }
    }

    /// Consume the chunk into an owned copy of its content.
    pub fn to_vec(self) -> (r: Vec<u8>)
        requires
            self.wf(),
        ensures
            r@ == self.view(),
    {
        let skip = self.skip;
        let mut buf = match self.cell {
            Some(v) => v,
            None => Vec::new(),
        };
        let r = buf.split_off(skip);
        proof {
            assert(r@ =~= self.view());
        }
        r
    }

    /// Whether `symbol` occurs in the content at position `at`.
    pub fn contains_at<S: Symbol>(&self, symbol: &S, at: usize) -> (r: bool)
        requires
            self.wf(),
        ensures
            r == sym_matches_at(self.view(), at as int, symbol.bytes()),
    {
        let slice = self.as_slice();
        symbol.contained_at(slice, at)
    }

    /// Move the skip offset forward by `len` content bytes.
    fn advance(&mut self, len: usize)
        requires
            old(self).wf(),
            len <= old(self).view().len(),
        ensures
            final(self).wf(),
            final(self).spec_skipped() == old(self).spec_skipped() + len,
            final(self).view() == old(self).view().skip(len as int),
    {
        let vl = match &self.cell {
            Some(v) => v.len(),
            None => 0,
        };
        self.skip = self.skip + len;
        proof {
            assert(self.view() =~= old(self).view().skip(len as int));
        }
    }

    /// Borrow the content bytes.
    pub fn as_slice(&self) -> (r: &[u8])
        requires
            self.wf(),
        ensures
            r@ == self.view(),
    {
        match &self.cell {
            Some(v) => {
                let r = vstd::slice::slice_subrange(v.as_slice(), self.skip, v.len());
                proof {
                    assert(r@ =~= self.view());
                }
                r
            },
            None => {
                proof {
                    assert(false);
                }
                &[]
            },
        }
    }
}

impl From<Vec<u8>> for Chunk {
    /// A chunk over the buffer's bytes, nothing skipped.
    fn from(vec: Vec<u8>) -> (r: Chunk)
        ensures
            r.wf(),
            r.raw() == vec@,
            r.view() == vec@,
            r.spec_skipped() == 0,
    {
        let capa = vec.len();
        let r = Chunk { capa, skip: 0, cell: Some(vec) };
        proof {
            assert(r.view() =~= r.raw());
        }
        r
    }
}

impl vstd::std_specs::convert::FromSpecImpl<Vec<u8>> for Chunk {
    open spec fn obeys_from_spec() -> bool {
        true
    }

    closed spec fn from_spec(vec: Vec<u8>) -> Chunk {
        Chunk { capa: vec@.len() as usize, skip: 0, cell: Some(vec) }
    }
}

/// A chunk served through a prefix-dropping interface, with thresholds that
/// decide when the skipped prefix is wiped from memory.
pub struct Feed {
    wipe_max_threshold: usize,
    wipe_min_threshold: usize,
    base_capacity: usize,
    cell: Option<Chunk>,
}

impl Feed {
    /// The chunk is present and well-formed.
    pub closed spec fn wf(&self) -> bool {
        match self.cell {
            Some(c) => c.wf(),
            None => false,
        }
    }

    /// The content bytes currently held.
    pub closed spec fn view(&self) -> Seq<u8> {
        match self.cell {
            Some(c) => c.view(),
            None => Seq::empty(),
        }
    }

    /// The length under which a skip wipes the served prefix.
    pub closed spec fn spec_wipe_min_threshold(&self) -> int {
        self.wipe_min_threshold as int
    }

    /// The skip offset above which a skip wipes the served prefix.
    pub closed spec fn spec_wipe_max_threshold(&self) -> int {
        self.wipe_max_threshold as int
    }

    /// An empty feed with a default base capacity.
    pub fn new() -> (r: Feed)
        ensures
            r.wf(),
            r.view() == Seq::<u8>::empty(),
    {
        Feed::with_capacity(1024)
    }

    /// An empty feed that asks for room for `capacity` bytes.
    pub fn with_capacity(capacity: usize) -> (r: Feed)
        ensures
            r.wf(),
            r.view() == Seq::<u8>::empty(),
    {
        let wipe_max = if capacity <= usize::MAX / 32 {
            capacity * 32
        } else {
            usize::MAX
        };
        Feed {
            cell: Some(Chunk::with_capacity(capacity)),
            base_capacity: capacity,
            wipe_min_threshold: 32,
            wipe_max_threshold: wipe_max,
        }
    }

    /// Set the length under which a skip wipes the served prefix.
    pub fn wipe_min_threshold(self, value: usize) -> (r: Feed)
        ensures
            r.wf() == self.wf(),
            r.view() == self.view(),
            r.spec_wipe_min_threshold() == value,
            r.spec_wipe_max_threshold() == self.spec_wipe_max_threshold(),
    {
        Feed { wipe_min_threshold: value, ..self }
    }

    /// Set the skip offset above which a skip wipes the served prefix.
    pub fn wipe_max_threshold(self, value: usize) -> (r: Feed)
        ensures
            r.wf() == self.wf(),
            r.view() == self.view(),
            r.spec_wipe_max_threshold() == value,
            r.spec_wipe_min_threshold() == self.spec_wipe_min_threshold(),
    {
        Feed { wipe_max_threshold: value, ..self }
    }

    /// How many content bytes the feed holds.
    pub fn len(&self) -> (r: usize)
        requires
            self.wf(),
        ensures
            r == self.view().len(),
    {
        match &self.cell {
            Some(c) => c.len(),
            None => 0,
        }
    }

    /// Append an owned buffer of bytes.
    pub fn push_vec(&mut self, vec: Vec<u8>)
        requires
            old(self).wf(),
        ensures
            final(self).wf(),
            final(self).view() == old(self).view() + vec@,
    {
        match &mut self.cell {
            Some(c) => c.push_vec(vec),
            None => (),
        }
    }

    /// Append a slice of bytes.
    pub fn push_slice(&mut self, slice: &[u8])
        requires
            old(self).wf(),
        ensures
            final(self).wf(),
            final(self).view() == old(self).view() + slice@,
    {
        match &mut self.cell {
            Some(c) => c.push_slice(slice),
            None => (),
        }
    }

    /// Drop up to `len` content bytes from the front; reports how many went.
    pub fn skip(&mut self, len: usize) -> (r: usize)
        requires
            old(self).wf(),
        ensures
            final(self).wf(),
            r == clamped(len as int, old(self).view().len() as int),
            final(self).view() == old(self).view().skip(r as int),
    {
        if len == 0 {
            proof {
                assert(self.view().skip(0) =~= self.view());
            }
            return 0;
        }
        let chunk_len = match &self.cell {
            Some(c) => c.len(),
            None => 0,
        };
        if chunk_len <= len {
            match &mut self.cell {
                Some(c) => c.clear(),
                None => (),
            }
            proof {
                assert(self.view() =~= old(self).view().skip(chunk_len as int));
            }
            chunk_len
        } else {
            let min_t = self.wipe_min_threshold;
            let max_t = self.wipe_max_threshold;
            match &mut self.cell {
                Some(c) => {
                    c.advance(len);
                    let clen = c.len();
                    let csk = c.skipped();
                    if (min_t > 0 && clen <= min_t) || (max_t > 0 && csk > max_t) {
                        c.wipe_skipped();
                    }
                },
                None => (),
            }
            len
        }
    }

    /// Borrow the content bytes.
    pub fn as_slice(&self) -> (r: &[u8])
        requires
            self.wf(),
        ensures
            r@ == self.view(),
    {
        match &self.cell {
            Some(c) => c.as_slice(),
            None => {
                proof {
                    assert(false);
                }
                &[]
            },
        }
    }

    /// Serve up to `len` content bytes from the front as a chunk.
    pub fn shift(&mut self, len: usize) -> (r: Chunk)
        requires
            old(self).wf(),
        ensures
            final(self).wf(),
            r.wf(),
            r.view() == old(self).view().take(clamped(len as int, old(self).view().len() as int)),
            final(self).view() == old(self).view().skip(
                clamped(len as int, old(self).view().len() as int),
            ),
    {
        if len == 0 {
            let r = Chunk::with_capacity(0);
            proof {
                assert(r.view() =~= old(self).view().take(0));
                assert(self.view() =~= old(self).view().skip(0));
            }
            return r;
        }
        let chunk_len = match &self.cell {
            Some(c) => c.len(),
            None => 0,
        };
        if chunk_len <= len {
            let chunk = match self.cell.take() {
                Some(c) => c,
                None => Chunk::with_capacity(0),
            };
            self.cell = Some(Chunk::with_capacity(self.base_capacity));
            proof {
                assert(chunk.view() =~= old(self).view().take(chunk_len as int));
                assert(self.view() =~= old(self).view().skip(chunk_len as int));
            }
            chunk
        } else {
            let min_t = self.wipe_min_threshold;
            let max_t = self.wipe_max_threshold;
            let mut beg = match self.cell.take() {
                Some(c) => c,
                None => Chunk::with_capacity(0),
            };
            let mut end = beg.split_off(len);
            let elen = end.len();
            let esk = end.skipped();
            if (min_t > 0 && elen <= min_t) || (max_t > 0 && esk > max_t) {
                end.wipe_skipped();
            }
            self.cell = Some(end);
            beg
        }
    }
}

/// A positioned byte source: lookahead never moves the cursor, skipping and
/// consuming clamp to the end of the content.
pub trait Read: Sized {
    /// The whole backing byte sequence.
    spec fn content(&self) -> Seq<u8>;

    /// The cursor position within the content.
    spec fn pos(&self) -> int;

    /// The cursor lies inside the content and the content fits in memory.
    spec fn wf(&self) -> bool;

    /// What well-formedness means for every reader.
    proof fn lemma_wf(&self)
        requires
            self.wf(),
        ensures
            0 <= self.pos() <= self.content().len() <= usize::MAX,
    ;

    /// Advance the cursor over up to `len` bytes and serve them as a chunk.
    fn consume(&mut self, len: usize) -> (r: Chunk)
        ensures
            old(self).wf() ==> final(self).wf(),
            final(self).content() == old(self).content(),
            final(self).pos() == old(self).pos() + clamped(
                len as int,
                old(self).content().len() - old(self).pos(),
            ),
            r.wf(),
            r.view() == old(self).content().subrange(old(self).pos(), final(self).pos()),
    ;

    /// Whether at least `len` bytes remain from the cursor.
    fn has(&mut self, len: usize) -> (r: bool)
        ensures
            *final(self) == *old(self),
            r == (old(self).pos() + len <= old(self).content().len()),
    ;

    /// Advance the cursor over up to `len` bytes; reports how many.
    fn skip(&mut self, len: usize) -> (r: usize)
        ensures
            old(self).wf() ==> final(self).wf(),
            final(self).content() == old(self).content(),
            r == clamped(len as int, old(self).content().len() - old(self).pos()),
            final(self).pos() == old(self).pos() + r,
    ;

    /// Borrow `len` bytes at the cursor, or nothing if fewer remain.
    fn slice<'a>(&'a mut self, len: usize) -> (r: Option<&'a [u8]>)
        ensures
            *final(self) == *old(self),
            match r {
                Some(s) => old(self).pos() + len <= old(self).content().len() && s@ == old(
                    self,
                ).content().subrange(old(self).pos(), old(self).pos() + len),
                None => old(self).pos() + len > old(self).content().len(),
            },
    {
        self.slice_at(0, len)
    }

    /// Borrow `len` bytes at offset `at` past the cursor, or nothing if
    /// fewer remain.
    fn slice_at<'a>(&'a mut self, at: usize, len: usize) -> (r: Option<&'a [u8]>)
        ensures
            *final(self) == *old(self),
            match r {
                Some(s) => old(self).pos() + at + len <= old(self).content().len() && s@ == old(
                    self,
                ).content().subrange(old(self).pos() + at, old(self).pos() + at + len),
                None => old(self).pos() + at + len > old(self).content().len(),
            },
    ;

    /// Whether `symbol` occurs at offset `at` past the cursor.
    fn contains_at<S: Symbol>(&mut self, symbol: &S, at: usize) -> (r: bool)
        ensures
            *final(self) == *old(self),
            r == sym_matches_at(old(self).content(), old(self).pos() + at, symbol.bytes()),
    ;
}

/// A reader over a borrowed byte slice: one segment, no allocation.
pub struct SliceReader<'slf> {
    pointer: usize,
    content: &'slf [u8],
}

impl<'slf> SliceReader<'slf> {
    #[verifier::type_invariant]
    spec fn type_wf(self) -> bool {
        self.pointer <= self.content@.len()
    }

    /// A reader over `slice` with the cursor at its start.
    pub fn new(slice: &'slf [u8]) -> (r: SliceReader<'slf>)
        ensures
            r.content() == slice@,
            r.pos() == 0,
            r.wf(),
    {
        let n = slice.len();
        SliceReader { pointer: 0, content: slice }
    }
}

impl<'slf> Read for SliceReader<'slf> {
    closed spec fn content(&self) -> Seq<u8> {
        self.content@
    }

    closed spec fn pos(&self) -> int {
        self.pointer as int
    }

    closed spec fn wf(&self) -> bool {
        self.pointer <= self.content@.len() <= usize::MAX
    }

    proof fn lemma_wf(&self) {
    }

    fn consume(&mut self, len: usize) -> (r: Chunk) {
        let n = self.skip(len);
        let mut chunk = Chunk::with_capacity(n);
        let piece = vstd::slice::slice_subrange(self.content, self.pointer - n, self.pointer);
        chunk.push_slice(piece);
        proof {
            assert(chunk.view() =~= piece@);
        }
        chunk
    }

    fn has(&mut self, len: usize) -> (r: bool) {
        proof {
            use_type_invariant(&*self);
        }
        len <= self.content.len() - self.pointer
    }

    fn skip(&mut self, len: usize) -> (r: usize) {
        proof {
            use_type_invariant(&*self);
        }
        let avail = self.content.len() - self.pointer;
        let adv = if len <= avail {
            len
        } else {
            avail
        };
        self.pointer = self.pointer + adv;
        adv
    }

    fn slice_at<'a>(&'a mut self, at: usize, len: usize) -> (r: Option<&'a [u8]>) {
        proof {
            use_type_invariant(&*self);
        }
        let avail = self.content.len() - self.pointer;
        if at <= avail && len <= avail - at {
            Some(vstd::slice::slice_subrange(self.content, self.pointer + at, self.pointer + at + len))
        } else {
            None
        }
    }

    fn contains_at<S: Symbol>(&mut self, symbol: &S, at: usize) -> (r: bool) {
        proof {
            use_type_invariant(&*self);
        }
        let avail = self.content.len() - self.pointer;
        if at <= avail {
            symbol.contained_at(self.content, self.pointer + at)
        } else {
            false
        }
    }
}

/// A reader over an owned byte buffer: one segment, owned storage.
pub struct BytesReader {
    pointer: usize,
    content: Vec<u8>,
}

impl BytesReader {
    #[verifier::type_invariant]
    spec fn type_wf(self) -> bool {
        self.pointer <= self.content@.len()
    }

    /// A reader over `data` with the cursor at its start.
    pub fn new(data: Vec<u8>) -> (r: BytesReader)
        ensures
            r.content() == data@,
            r.pos() == 0,
            r.wf(),
    {
        let n = data.len();
        BytesReader { pointer: 0, content: data }
    }
}

impl Read for BytesReader {
    closed spec fn content(&self) -> Seq<u8> {
        self.content@
    }

    closed spec fn pos(&self) -> int {
        self.pointer as int
    }

    closed spec fn wf(&self) -> bool {
        self.pointer <= self.content@.len() <= usize::MAX
    }

    proof fn lemma_wf(&self) {
    }

    fn consume(&mut self, len: usize) -> (r: Chunk) {
        let n = self.skip(len);
        let mut chunk = Chunk::with_capacity(n);
        let piece = vstd::slice::slice_subrange(
            self.content.as_slice(),
            self.pointer - n,
            self.pointer,
        );
        chunk.push_slice(piece);
        proof {
            assert(chunk.view() =~= piece@);
        }
        chunk
    }

    fn has(&mut self, len: usize) -> (r: bool) {
        proof {
            use_type_invariant(&*self);
        }
        len <= self.content.len() - self.pointer
    }

    fn skip(&mut self, len: usize) -> (r: usize) {
        proof {
            use_type_invariant(&*self);
        }
        let avail = self.content.len() - self.pointer;
        let adv = if len <= avail {
            len
        } else {
            avail
        };
        self.pointer = self.pointer + adv;
        adv
    }

    fn slice_at<'a>(&'a mut self, at: usize, len: usize) -> (r: Option<&'a [u8]>) {
        proof {
            use_type_invariant(&*self);
        }
        let avail = self.content.len() - self.pointer;
        if at <= avail && len <= avail - at {
            Some(
                vstd::slice::slice_subrange(
                    self.content.as_slice(),
                    self.pointer + at,
                    self.pointer + at + len,
                ),
            )
        } else {
            None
        }
    }

    fn contains_at<S: Symbol>(&mut self, symbol: &S, at: usize) -> (r: bool) {
        proof {
            use_type_invariant(&*self);
        }
        let avail = self.content.len() - self.pointer;
        if at <= avail {
            symbol.contained_at(self.content.as_slice(), self.pointer + at)
        } else {
            false
        }
    }
}

/// A byte carrier that a scanner-facing reader can be built from.
pub trait IntoReader where Self::Reader: Read {
    /// The kind of reader this carrier turns into.
    type Reader;

    /// Consume the carrier into a reader over its bytes.
    fn into_reader(self) -> Self::Reader;
}

impl IntoReader for &'static str {
    type Reader = SliceReader<'static>;

    /// A reader over the string's UTF-8 bytes.
    fn into_reader(self) -> (r: SliceReader<'static>)
        ensures
            r.content() == self.spec_bytes(),
            r.pos() == 0,
            r.wf(),
    {
        SliceReader::new(self.as_bytes())
    }
}

impl IntoReader for String {
    type Reader = BytesReader;

    /// A reader over the string's UTF-8 bytes.
    fn into_reader(self) -> (r: BytesReader)
        ensures
            r.content() == vstd::utf8::encode_utf8(self@),
            r.pos() == 0,
            r.wf(),
    {
        BytesReader::new(string_to_bytes(self))
    }
}

impl IntoReader for Vec<u8> {
    type Reader = BytesReader;

    /// A reader over the buffer's bytes.
    fn into_reader(self) -> (r: BytesReader)
        ensures
            r.content() == self@,
            r.pos() == 0,
            r.wf(),
    {
        BytesReader::new(self)
    }
}

/// Relies on `String::into_bytes` of std: it returns the string's UTF-8
/// encoding.
#[verifier::external_body]
pub(crate) fn string_to_bytes(s: String) -> (r: Vec<u8>)
    ensures
        r@ == vstd::utf8::encode_utf8(s@),
{
    s.into_bytes()
}

} // verus!
