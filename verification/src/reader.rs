//! Positioned byte sources with marker-producing consumption: presence
//! checks, fixed-width and variable lookahead, clamping skips, and access to
//! the backing segments.

pub mod bytes_reader;
pub mod into_reader;
pub mod ioreadeof_reader;
pub mod slice_reader;

pub use self::bytes_reader::BytesReader;
pub use self::into_reader::IntoReader;
pub use self::ioreadeof_reader::IoreadeofReader;
pub use self::slice_reader::SliceReader;

use vstd::prelude::*;

use crate::data::Datum;
use crate::feed::clamped;
use crate::marker::Marker;
use crate::symbol::sym_matches_at;

verus! {

/// A cursor over an in-memory byte source. Lookahead never moves the
/// cursor; `skip` and `consume` clamp to the end of the content, and
/// `consume` describes the advanced range as a marker over segment zero.
pub trait Read: Sized {
    /// The backing segment handle this reader can hand out.
    type Datum: Datum;

    /// The whole backing byte sequence.
    spec fn content(&self) -> Seq<u8>;

    /// The cursor position within the content.
    spec fn pos(&self) -> int;

    /// The cursor lies inside the content and the content fits in memory.
    spec fn wf(&self) -> bool;

    /// What well-formedness means for every reader.
    proof fn lemma_wf(&self)
        requires
            self.wf(),
        ensures
            0 <= self.pos() <= self.content().len() <= usize::MAX,
    ;

    /// Whether at least `len` bytes remain from the cursor.
    fn has_long(&mut self, len: usize) -> (r: bool)
        ensures
            *final(self) == *old(self),
            r == (old(self).pos() + len <= old(self).content().len()),
    ;

    /// Whether at least `len` bytes remain from the cursor (small counts).
    fn has(&mut self, len: u8) -> (r: bool)
        ensures
            *final(self) == *old(self),
            r == (old(self).pos() + len <= old(self).content().len()),
    {
        self.has_long(len as usize)
    }

    /// Advance the cursor over up to `len` bytes; reports how many.
    fn skip_long(&mut self, len: usize) -> (r: usize)
        ensures
            old(self).wf() ==> final(self).wf(),
            final(self).content() == old(self).content(),
            r == clamped(len as int, old(self).content().len() - old(self).pos()),
            final(self).pos() == old(self).pos() + r,
    ;

    /// Advance the cursor over up to `len` bytes (small counts).
    fn skip(&mut self, len: u8) -> (r: u8)
        ensures
            old(self).wf() ==> final(self).wf(),
            final(self).content() == old(self).content(),
            r == clamped(len as int, old(self).content().len() - old(self).pos()),
            final(self).pos() == old(self).pos() + r,
    {
        let n = self.skip_long(len as usize);
        n as u8
    }

    /// Whether `bytes` occurs at offset `at` past the cursor.
    fn bytes_at(&mut self, bytes: &[u8], at: usize) -> (r: bool)
        ensures
            *final(self) == *old(self),
            r == sym_matches_at(old(self).content(), old(self).pos() + at, bytes@),
    ;

    /// Whether `bytes` occurs at the cursor.
    fn bytes_at_start(&mut self, bytes: &[u8]) -> (r: bool)
        ensures
            *final(self) == *old(self),
            r == sym_matches_at(old(self).content(), old(self).pos(), bytes@),
    {
        self.bytes_at(bytes, 0)
    }

    /// Whether the byte occurs at offset `at` past the cursor.
    fn byte_at(&mut self, byte: u8, at: usize) -> (r: bool)
        ensures
            *final(self) == *old(self),
            r == sym_matches_at(old(self).content(), old(self).pos() + at, seq![byte]),
    {
        let pat = [byte];
        let r = self.bytes_at(pat.as_slice(), at);
        proof {
            assert(pat@ =~= seq![byte]);
        }
        r
    }

    /// Whether the byte occurs at the cursor.
    fn byte_at_start(&mut self, byte: u8) -> (r: bool)
        ensures
            *final(self) == *old(self),
            r == sym_matches_at(old(self).content(), old(self).pos(), seq![byte]),
    {
        self.byte_at(byte, 0)
    }

    /// Whether the two bytes occur at offset `at` past the cursor.
    fn bytes_2_at(&mut self, bytes: [u8; 2], at: usize) -> (r: bool)
        ensures
            *final(self) == *old(self),
            r == sym_matches_at(old(self).content(), old(self).pos() + at, bytes@),
    {
        self.bytes_at(bytes.as_slice(), at)
    }

    /// Whether the two bytes occur at the cursor.
    fn bytes_2_at_start(&mut self, bytes: [u8; 2]) -> (r: bool)
        ensures
            *final(self) == *old(self),
            r == sym_matches_at(old(self).content(), old(self).pos(), bytes@),
    {
        self.bytes_2_at(bytes, 0)
    }

    /// Whether the three bytes occur at offset `at` past the cursor.
    fn bytes_3_at(&mut self, bytes: [u8; 3], at: usize) -> (r: bool)
        ensures
            *final(self) == *old(self),
            r == sym_matches_at(old(self).content(), old(self).pos() + at, bytes@),
    {
        self.bytes_at(bytes.as_slice(), at)
    }

    /// Whether the three bytes occur at the cursor.
    fn bytes_3_at_start(&mut self, bytes: [u8; 3]) -> (r: bool)
        ensures
            *final(self) == *old(self),
            r == sym_matches_at(old(self).content(), old(self).pos(), bytes@),
    {
        self.bytes_3_at(bytes, 0)
    }

    /// Whether the four bytes occur at offset `at` past the cursor.
    fn bytes_4_at(&mut self, bytes: [u8; 4], at: usize) -> (r: bool)
        ensures
            *final(self) == *old(self),
            r == sym_matches_at(old(self).content(), old(self).pos() + at, bytes@),
    {
        self.bytes_at(bytes.as_slice(), at)
    }

    /// Whether the four bytes occur at the cursor.
    fn bytes_4_at_start(&mut self, bytes: [u8; 4]) -> (r: bool)
        ensures
            *final(self) == *old(self),
            r == sym_matches_at(old(self).content(), old(self).pos(), bytes@),
    {
        self.bytes_4_at(bytes, 0)
    }

    /// Borrow `len` bytes at offset `at` past the cursor, or nothing if
    /// fewer remain.
    fn slice_at<'a>(&'a mut self, at: usize, len: usize) -> (r: Option<&'a [u8]>)
        ensures
            *final(self) == *old(self),
            match r {
                Some(s) => 0 <= old(self).pos() && old(self).pos() + at + len <= old(
                    self,
                ).content().len() && s@ == old(self).content().subrange(
                    old(self).pos() + at,
                    old(self).pos() + at + len,
                ) && s@.len() == len,
                None => old(self).pos() + at + len > old(self).content().len(),
            },
    ;

    /// Borrow `len` bytes at the cursor, or nothing if fewer remain.
    fn slice<'a>(&'a mut self, len: usize) -> (r: Option<&'a [u8]>)
        ensures
            *final(self) == *old(self),
            match r {
                Some(s) => 0 <= old(self).pos() && old(self).pos() + len <= old(
                    self,
                ).content().len() && s@ == old(self).content().subrange(
                    old(self).pos(),
                    old(self).pos() + len,
                ) && s@.len() == len,
                None => old(self).pos() + len > old(self).content().len(),
            },
    {
        self.slice_at(0, len)
    }

    /// The byte at offset `at` past the cursor, or nothing past the end.
    fn get_byte_at(&mut self, at: usize) -> (r: Option<u8>)
        ensures
            *final(self) == *old(self),
            match r {
                Some(b) => old(self).pos() + at < old(self).content().len() && b == old(
                    self,
                ).content()[old(self).pos() + at],
                None => old(self).pos() + at >= old(self).content().len(),
            },
    {
        match self.slice_at(at, 1) {
            Some(s) => Some(s[0]),
            None => None,
        }
    }

    /// The byte at the cursor, or nothing past the end.
    fn get_byte_at_start(&mut self) -> (r: Option<u8>)
        ensures
            *final(self) == *old(self),
            match r {
                Some(b) => old(self).pos() < old(self).content().len() && b == old(
                    self,
                ).content()[old(self).pos()],
                None => old(self).pos() >= old(self).content().len(),
            },
    {
        self.get_byte_at(0)
    }

    /// The two bytes at offset `at` past the cursor, or nothing if fewer
    /// remain.
    fn get_bytes_2_at(&mut self, at: usize) -> (r: Option<(u8, u8)>)
        ensures
            *final(self) == *old(self),
            match r {
                Some(p) => old(self).pos() + at + 2 <= old(self).content().len() && p.0 == old(
                    self,
                ).content()[old(self).pos() + at] && p.1 == old(self).content()[old(self).pos()
                    + at + 1],
                None => old(self).pos() + at + 2 > old(self).content().len(),
            },
    {
        match self.slice_at(at, 2) {
            Some(s) => Some((s[0], s[1])),
            None => None,
        }
    }

    /// The two bytes at the cursor, or nothing if fewer remain.
    fn get_bytes_2_at_start(&mut self) -> (r: Option<(u8, u8)>)
        ensures
            *final(self) == *old(self),
            match r {
                Some(p) => old(self).pos() + 2 <= old(self).content().len() && p.0 == old(
                    self,
                ).content()[old(self).pos()] && p.1 == old(self).content()[old(self).pos() + 1],
                None => old(self).pos() + 2 > old(self).content().len(),
            },
    {
        self.get_bytes_2_at(0)
    }

    /// The three bytes at offset `at` past the cursor, or nothing if fewer
    /// remain.
    fn get_bytes_3_at(&mut self, at: usize) -> (r: Option<(u8, u8, u8)>)
        ensures
            *final(self) == *old(self),
            match r {
                Some(p) => old(self).pos() + at + 3 <= old(self).content().len() && p.0 == old(
                    self,
                ).content()[old(self).pos() + at] && p.1 == old(self).content()[old(self).pos()
                    + at + 1] && p.2 == old(self).content()[old(self).pos() + at + 2],
                None => old(self).pos() + at + 3 > old(self).content().len(),
            },
    {
        match self.slice_at(at, 3) {
            Some(s) => Some((s[0], s[1], s[2])),
            None => None,
        }
    }

    /// The three bytes at the cursor, or nothing if fewer remain.
    fn get_bytes_3_at_start(&mut self) -> (r: Option<(u8, u8, u8)>)
        ensures
            *final(self) == *old(self),
            match r {
                Some(p) => old(self).pos() + 3 <= old(self).content().len() && p.0 == old(
                    self,
                ).content()[old(self).pos()] && p.1 == old(self).content()[old(self).pos() + 1]
                    && p.2 == old(self).content()[old(self).pos() + 2],
                None => old(self).pos() + 3 > old(self).content().len(),
            },
    {
        self.get_bytes_3_at(0)
    }

    /// The four bytes at offset `at` past the cursor, or nothing if fewer
    /// remain.
    fn get_bytes_4_at(&mut self, at: usize) -> (r: Option<(u8, u8, u8, u8)>)
        ensures
            *final(self) == *old(self),
            match r {
                Some(p) => old(self).pos() + at + 4 <= old(self).content().len() && p.0 == old(
                    self,
                ).content()[old(self).pos() + at] && p.1 == old(self).content()[old(self).pos()
                    + at + 1] && p.2 == old(self).content()[old(self).pos() + at + 2] && p.3 == old(
                    self,
                ).content()[old(self).pos() + at + 3],
                None => old(self).pos() + at + 4 > old(self).content().len(),
            },
    {
        match self.slice_at(at, 4) {
            Some(s) => Some((s[0], s[1], s[2], s[3])),
            None => None,
        }
    }

    /// The four bytes at the cursor, or nothing if fewer remain.
    fn get_bytes_4_at_start(&mut self) -> (r: Option<(u8, u8, u8, u8)>)
        ensures
            *final(self) == *old(self),
            match r {
                Some(p) => old(self).pos() + 4 <= old(self).content().len() && p.0 == old(
                    self,
                ).content()[old(self).pos()] && p.1 == old(self).content()[old(self).pos() + 1]
                    && p.2 == old(self).content()[old(self).pos() + 2] && p.3 == old(
                    self,
                ).content()[old(self).pos() + 3],
                None => old(self).pos() + 4 > old(self).content().len(),
            },
    {
        self.get_bytes_4_at(0)
    }

    /// Advance the cursor over up to `len` bytes and describe the advanced
    /// range as a marker over segment zero.
    fn consume_long(&mut self, len: usize) -> (m: Marker)
        ensures
            old(self).wf() ==> final(self).wf(),
            final(self).content() == old(self).content(),
            final(self).pos() == old(self).pos() + clamped(
                len as int,
                old(self).content().len() - old(self).pos(),
            ),
            m.pos1.0 == 0 && m.pos2.0 == 0,
            m.pos1.1 == old(self).pos() && m.pos2.1 == final(self).pos(),
    ;

    /// Advance the cursor over up to `len` bytes (small counts) and describe
    /// the advanced range as a marker over segment zero.
    fn consume(&mut self, len: u8) -> (m: Marker)
        ensures
            old(self).wf() ==> final(self).wf(),
            final(self).content() == old(self).content(),
            final(self).pos() == old(self).pos() + clamped(
                len as int,
                old(self).content().len() - old(self).pos(),
            ),
            m.pos1.0 == 0 && m.pos2.0 == 0,
            m.pos1.1 == old(self).pos() && m.pos2.1 == final(self).pos(),
    {
        self.consume_long(len as usize)
    }

    /// The `index`-th backing segment as an owned, shareable handle; a
    /// single-buffer reader has only segment zero.
    fn get_datum(&mut self, index: usize) -> (r: Option<Self::Datum>)
        ensures
            *final(self) == *old(self),
            match r {
                Some(d) => index == 0 && d.bytes() == old(self).content(),
                None => index != 0,
            },
    ;
}

} // verus!
