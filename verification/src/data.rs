//! A store of byte segments and the resolution of markers against it.

use vstd::prelude::*;

use crate::marker::Marker;
use crate::symbol::concat_bytes;
use crate::symbol::lemma_concat_bytes_len;
use crate::symbol::lemma_concat_bytes_take_step;
use crate::symbol::lemma_total_len_take_le;
use crate::symbol::total_len;

verus! {

/// One owned, shareable byte segment.
pub trait Datum: Sized + Clone {
    /// The bytes of the segment.
    spec fn bytes(&self) -> Seq<u8>;

    /// How many bytes the segment holds.
    fn len(&self) -> (r: usize)
        ensures
            r == self.bytes().len(),
    ;

    /// Borrow the segment's bytes.
    fn as_slice(&self) -> (r: &[u8])
        ensures
            r@ == self.bytes(),
    ;
}

/// The bytes a marker denotes within a list of segments: a slice of one
/// segment, or the concatenation of a suffix, whole middle segments, and a
/// prefix.
pub open spec fn marker_bytes(segs: Seq<Seq<u8>>, m: Marker) -> Seq<u8> {
    if m.pos1.0 == m.pos2.0 {
        segs[m.pos1.0 as int].subrange(m.pos1.1 as int, m.pos2.1 as int)
    } else {
        segs[m.pos1.0 as int].skip(m.pos1.1 as int) + concat_bytes(
            segs.subrange(m.pos1.0 + 1, m.pos2.0 as int),
        ) + segs[m.pos2.0 as int].take(m.pos2.1 as int)
    }
}

/// Where the end of a range lands that needs `need` more bytes, walking the
/// segments from `seg` on.
pub open spec fn locate_end(segs: Seq<Seq<u8>>, seg: int, need: int) -> (int, int)
    decreases segs.len() - seg,
{
    if seg < 0 || seg >= segs.len() {
        (seg, need)
    } else if segs[seg].len() >= need {
        (seg, need)
    } else {
        locate_end(segs, seg + 1, need - segs[seg].len())
    }
}

/// When the segments from `seg` on hold `need` bytes, the located end lies
/// in one of them and cuts off exactly `need` bytes.
pub proof fn lemma_locate_end(segs: Seq<Seq<u8>>, seg: int, need: int)
    requires
        0 <= seg <= segs.len(),
        1 <= need,
        need <= total_len(segs.skip(seg)),
    ensures
        ({
            let (j, off) = locate_end(segs, seg, need);
            &&& seg <= j < segs.len()
            &&& 1 <= off <= segs[j].len()
            &&& total_len(segs.subrange(seg, j)) + off == need
        }),
    decreases segs.len() - seg,
{
    if seg == segs.len() {
        assert(segs.skip(seg) =~= Seq::<Seq<u8>>::empty());
    } else {
        assert(segs.skip(seg).first() == segs[seg]);
        assert(segs.skip(seg).drop_first() =~= segs.skip(seg + 1));
        if segs[seg].len() >= need {
            assert(segs.subrange(seg, seg) =~= Seq::<Seq<u8>>::empty());
        } else {
            lemma_concat_bytes_len(segs.skip(seg + 1));
            lemma_locate_end(segs, seg + 1, need - segs[seg].len());
            let (j, off) = locate_end(segs, seg + 1, need - segs[seg].len());
            assert(segs.subrange(seg, j).first() == segs[seg]);
            assert(segs.subrange(seg, j).drop_first() =~= segs.subrange(seg + 1, j));
        }
    }
}

/// A list of byte segments that markers can be resolved against.
pub struct Data<Datum> {
    data: Vec<Datum>,
}

impl<D: Datum> Data<D> {
    /// The byte contents of the segments, in order.
    pub closed spec fn segs(&self) -> Seq<Seq<u8>> {
        self.data@.map_values(|d: D| d.bytes())
    }

    /// The marker's positions lie within the segments.
    pub open spec fn marker_wf(&self, m: Marker) -> bool {
        &&& m.pos1.0 <= m.pos2.0 < self.segs().len()
        &&& m.pos1.1 <= self.segs()[m.pos1.0 as int].len()
        &&& m.pos2.1 <= self.segs()[m.pos2.0 as int].len()
        &&& m.pos1.0 == m.pos2.0 ==> m.pos1.1 <= m.pos2.1
    }

    /// An empty store that asks for room for `size` segments.
    pub fn with_capacity(size: usize) -> (r: Data<D>)
        ensures
            r.segs() == Seq::<Seq<u8>>::empty(),
    {
        let r = Data { data: Vec::with_capacity(size) };
        proof {
            assert(r.segs() =~= Seq::<Seq<u8>>::empty());
        }
        r
    }

    /// Drop all segments.
    pub fn clear(&mut self)
        ensures
            final(self).segs() == Seq::<Seq<u8>>::empty(),
    {
        self.data.clear();
        proof {
            assert(self.segs() =~= Seq::<Seq<u8>>::empty());
        }
    }

    /// How many segments the store holds.
    pub fn amount(&self) -> (r: usize)
        ensures
            r == self.segs().len(),
    {
        self.data.len()
    }

    /// Append one segment.
    pub fn push(&mut self, datum: D)
        ensures
            final(self).segs() == old(self).segs().push(datum.bytes()),
    {
        self.data.push(datum);
        proof {
            assert(self.segs() =~= old(self).segs().push(datum.bytes()));
        }
    }

    /// How many bytes a marker denotes.
    pub fn marker_len(&self, marker: &Marker) -> (r: usize)
        requires
            self.marker_wf(*marker),
            marker_bytes(self.segs(), *marker).len() <= usize::MAX,
        ensures
            r == marker_bytes(self.segs(), *marker).len(),
    {
        let ghost segs = self.segs();
        if marker.pos1.0 == marker.pos2.0 {
            marker.pos2.1 - marker.pos1.1
        } else {
            let ghost mid = segs.subrange(marker.pos1.0 + 1, marker.pos2.0 as int);
            proof {
                lemma_concat_bytes_len(mid);
                assert(mid.take(0) =~= Seq::<Seq<u8>>::empty());
            }
            let head = self.data[marker.pos1.0].len() - marker.pos1.1;
            let mut tot_len: usize = head;
            proof {
                lemma_total_len_take_le(mid, 0);
            }
            tot_len = tot_len + marker.pos2.1;
            let mut i: usize = marker.pos1.0 + 1;
            while i < marker.pos2.0
                invariant
                    self.marker_wf(*marker),
                    segs == self.segs(),
                    mid == segs.subrange(marker.pos1.0 + 1, marker.pos2.0 as int),
                    marker_bytes(segs, *marker).len() <= usize::MAX,
                    marker.pos1.0 + 1 <= i <= marker.pos2.0,
                    head == segs[marker.pos1.0 as int].len() - marker.pos1.1,
                    tot_len == head + marker.pos2.1 + total_len(
                        mid.take(i - marker.pos1.0 - 1),
                    ),
                decreases marker.pos2.0 - i,
            {
                proof {
                    lemma_concat_bytes_take_step(mid, i - marker.pos1.0 - 1);
                    lemma_total_len_take_le(mid, i - marker.pos1.0);
                    lemma_concat_bytes_len(mid);
                }
                tot_len = tot_len + self.data[i].len();
                i += 1;
            }
            proof {
                assert(mid.take(marker.pos2.0 - marker.pos1.0 - 1) =~= mid);
                lemma_concat_bytes_len(mid);
            }
            tot_len
        }
    }

    /// A marker of `newlen` bytes that starts where `marker` starts. When the
    /// requested length fits the segments, the new marker denotes exactly
    /// `newlen` bytes.
    pub fn resize(&self, marker: Marker, newlen: usize) -> (r: Marker)
        requires
            self.marker_wf(marker),
            marker.pos1.0 == marker.pos2.0 ==> marker.pos1.1 + newlen <= usize::MAX,
            marker.pos1.0 != marker.pos2.0 && newlen > self.segs()[marker.pos1.0 as int].len()
                - marker.pos1.1 ==> newlen - (self.segs()[marker.pos1.0 as int].len()
                - marker.pos1.1) <= total_len(self.segs().skip(marker.pos1.0 + 1)),
        ensures
            r.pos1 == marker.pos1,
            marker.pos1.0 != marker.pos2.0 || marker.pos1.1 + newlen <= self.segs()[marker.pos1.0 as int].len()
                ==> self.marker_wf(r) && marker_bytes(self.segs(), r).len() == newlen,
    {
        let ghost segs = self.segs();
        if marker.pos1.0 == marker.pos2.0 {
            let r = Marker::new(
                (marker.pos1.0, marker.pos1.1),
                (marker.pos2.0, marker.pos1.1 + newlen),
            );
            r
        } else {
            let datum_len = self.data[marker.pos1.0].len();
            if datum_len - marker.pos1.1 >= newlen {
                let r = Marker::new(
                    (marker.pos1.0, marker.pos1.1),
                    (marker.pos1.0, marker.pos1.1 + newlen),
                );
                r
            } else {
                let pos1 = marker.pos1;
                let n_segs = self.data.len();
                let mut seg: usize = marker.pos1.0;
                let mut tot_len: usize = newlen - (datum_len - marker.pos1.1);
                proof {
                    lemma_locate_end(segs, marker.pos1.0 + 1, tot_len as int);
                }
                let ghost (lj, loff) = locate_end(segs, marker.pos1.0 + 1, tot_len as int);
                loop
                    invariant_except_break
                        1 <= tot_len,
                        tot_len <= total_len(segs.skip(seg + 1)),
                        seg < lj,
                        (lj, loff) == locate_end(segs, seg + 1, tot_len as int),
                    invariant
                        self.marker_wf(marker),
                        segs == self.segs(),
                        n_segs == segs.len(),
                        marker.pos1.0 <= seg <= lj,
                        marker.pos1.0 + 1 <= lj < segs.len(),
                        1 <= loff <= segs[lj as int].len(),
                    ensures
                        seg == lj,
                        tot_len == loff,
                    decreases segs.len() - seg,
                {
                    proof {
                        lemma_locate_end(segs, seg + 1, tot_len as int);
                        assert(segs.skip(seg + 1).first() == segs[seg + 1]);
                        assert(segs.skip(seg + 1).drop_first() =~= segs.skip(seg + 2));
                    }
                    seg += 1;
                    let seg_len = self.data[seg].len();
                    if seg_len >= tot_len {
                        break ;
                    } else {
                        tot_len -= seg_len;
                    }
                }
                let r = Marker::new(pos1, (seg, tot_len));
                proof {
                    lemma_locate_end(segs, marker.pos1.0 + 1, (newlen - (datum_len
                        - marker.pos1.1)) as int);
                    let mid = segs.subrange(marker.pos1.0 + 1, lj);
                    lemma_concat_bytes_len(mid);
                    assert(marker_bytes(segs, r).len() == newlen);
                }
                r
            }
        }
    }

    /// Resolve a marker to its bytes: a borrowed slice when the marker lies
    /// in one segment, an owned concatenation otherwise.
    pub fn chunk<'a>(&'a self, marker: &Marker) -> (r: Chunk<'a>)
        requires
            self.marker_wf(*marker),
        ensures
            r.bytes() == marker_bytes(self.segs(), *marker),
    {
        if marker.pos1.0 == marker.pos2.0 {
            self._chunk_slice(marker.pos1.0, marker.pos1.1, marker.pos2.1)
        } else {
            self._chunk_vec(marker)
        }
    }

    /// A borrowed slice of one segment.
    fn _chunk_slice<'a>(&'a self, datum_idx: usize, start: usize, end: usize) -> (r: Chunk<'a>)
        requires
            datum_idx < self.segs().len(),
            start <= end <= self.segs()[datum_idx as int].len(),
        ensures
            r.bytes() == self.segs()[datum_idx as int].subrange(start as int, end as int),
    {
        let s = self.data[datum_idx].as_slice();
        Chunk::Slice(vstd::slice::slice_subrange(s, start, end))
    }

    /// An owned concatenation of the marker's suffix, middles, and prefix.
    fn _chunk_vec<'a>(&'a self, marker: &Marker) -> (r: Chunk<'a>)
        requires
            self.marker_wf(*marker),
            marker.pos1.0 != marker.pos2.0,
        ensures
            r.bytes() == marker_bytes(self.segs(), *marker),
    {
        let ghost segs = self.segs();
        let ghost mid = segs.subrange(marker.pos1.0 + 1, marker.pos2.0 as int);
        let mut vec: Vec<u8> = Vec::new();
        let head = self.data[marker.pos1.0].as_slice();
        let head_len = self.data[marker.pos1.0].len();
        vec.extend_from_slice(vstd::slice::slice_subrange(head, marker.pos1.1, head_len));
        proof {
            assert(vec@ =~= segs[marker.pos1.0 as int].skip(marker.pos1.1 as int));
            assert(mid.take(0) =~= Seq::<Seq<u8>>::empty());
            assert(vec@ =~= segs[marker.pos1.0 as int].skip(marker.pos1.1 as int) + concat_bytes(
                mid.take(0),
            ));
        }
        let mut i: usize = marker.pos1.0 + 1;
        while i < marker.pos2.0
            invariant
                self.marker_wf(*marker),
                segs == self.segs(),
                mid == segs.subrange(marker.pos1.0 + 1, marker.pos2.0 as int),
                marker.pos1.0 + 1 <= i <= marker.pos2.0,
                vec@ == segs[marker.pos1.0 as int].skip(marker.pos1.1 as int) + concat_bytes(
                    mid.take(i - marker.pos1.0 - 1),
                ),
            decreases marker.pos2.0 - i,
        {
            let ghost pre = vec@;
            vec.extend_from_slice(self.data[i].as_slice());
            proof {
                lemma_concat_bytes_take_step(mid, i - marker.pos1.0 - 1);
                assert(vec@ =~= pre + mid[i - marker.pos1.0 - 1]);
                assert(vec@ =~= segs[marker.pos1.0 as int].skip(marker.pos1.1 as int)
                    + concat_bytes(mid.take(i - marker.pos1.0)));
            }
            i += 1;
        }
        let ghost pre = vec@;
        let tail = self.data[marker.pos2.0].as_slice();
        vec.extend_from_slice(vstd::slice::slice_subrange(tail, 0, marker.pos2.1));
        proof {
            assert(mid.take(marker.pos2.0 - marker.pos1.0 - 1) =~= mid);
            assert(vec@ =~= pre + segs[marker.pos2.0 as int].take(marker.pos2.1 as int));
            assert(vec@ =~= marker_bytes(segs, *marker));
        }
        Chunk::Vec(vec)
    }
}

/// Marker resolution: either a borrowed slice of one segment or an owned
/// concatenation across segments.
pub enum Chunk<'a> {
    Slice(&'a [u8]),
    Vec(Vec<u8>),
}

impl<'a> Chunk<'a> {
    /// The bytes the chunk holds.
    pub closed spec fn bytes(&self) -> Seq<u8> {
        match self {
            Chunk::Slice(s) => s@,
            Chunk::Vec(v) => v@,
        }
    }

    /// Borrow the bytes the chunk holds.
    pub fn as_slice(&self) -> (r: &[u8])
        ensures
            r@ == self.bytes(),
    {
        match self {
            Chunk::Slice(s) => s,
            Chunk::Vec(v) => v.as_slice(),
        }
    }
}

impl<'a> From<Vec<u8>> for Chunk<'a> {
    fn from(v: Vec<u8>) -> (r: Chunk<'a>) {
        Chunk::Vec(v)
    }
}

impl<'a> vstd::std_specs::convert::FromSpecImpl<Vec<u8>> for Chunk<'a> {
    open spec fn obeys_from_spec() -> bool {
        true
    }

    open spec fn from_spec(v: Vec<u8>) -> Chunk<'a> {
        Chunk::Vec(v)
    }
}

} // verus!
