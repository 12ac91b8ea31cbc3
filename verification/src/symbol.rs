//! Literal byte patterns that can be matched at a position in a byte buffer.
//!
//! Fixed-width characters of one to four bytes allow branch-light comparisons;
//! the tagged [`Char`] holds one to eight bytes behind a length byte; a
//! [`Word`] is a heap-allocated run of characters; [`Rune`] carries any of
//! them behind a single type.

use vstd::prelude::*;

verus! {

/// `pat` occurs in `buf` at position `at`: the window fits and the bytes agree.
pub open spec fn sym_matches_at(buf: Seq<u8>, at: int, pat: Seq<u8>) -> bool {
    &&& 0 <= at
    &&& at + pat.len() <= buf.len()
    &&& buf.subrange(at, at + pat.len()) == pat
}

/// The concatenation of a list of byte sequences.
pub open spec fn concat_bytes(parts: Seq<Seq<u8>>) -> Seq<u8>
    decreases parts.len(),
{
    if parts.len() == 0 {
        Seq::empty()
    } else {
        parts.first() + concat_bytes(parts.drop_first())
    }
}

/// The sum of the lengths of a list of byte sequences.
pub open spec fn total_len(parts: Seq<Seq<u8>>) -> int
    decreases parts.len(),
{
    if parts.len() == 0 {
        0int
    } else {
        parts.first().len() + total_len(parts.drop_first())
    }
}

/// Concatenating a list of byte sequences yields as many bytes as the parts hold together.
pub proof fn lemma_concat_bytes_len(parts: Seq<Seq<u8>>)
    ensures
        concat_bytes(parts).len() == total_len(parts),
        total_len(parts) >= 0,
    decreases parts.len(),
{
    if parts.len() > 0 {
        lemma_concat_bytes_len(parts.drop_first());
    }
}

/// `pat` repeated `times` times.
pub open spec fn repeat_bytes(pat: Seq<u8>, times: nat) -> Seq<u8>
    decreases times,
{
    if times == 0 {
        Seq::empty()
    } else {
        repeat_bytes(pat, (times - 1) as nat) + pat
    }
}

/// The sum of a list of character counts.
pub open spec fn total_chars(counts: Seq<nat>) -> int
    decreases counts.len(),
{
    if counts.len() == 0 {
        0int
    } else {
        counts.first() + total_chars(counts.drop_first())
    }
}

/// Concatenation grows one part at a time, and so do the running sums.
pub proof fn lemma_concat_bytes_take_step(parts: Seq<Seq<u8>>, i: int)
    requires
        0 <= i < parts.len(),
    ensures
        concat_bytes(parts.take(i + 1)) == concat_bytes(parts.take(i)) + parts[i],
        total_len(parts.take(i + 1)) == total_len(parts.take(i)) + parts[i].len(),
    decreases i,
{
    if i == 0 {
        assert(parts.take(1).drop_first() =~= Seq::<Seq<u8>>::empty());
        assert(parts.take(0) =~= Seq::<Seq<u8>>::empty());
        assert(concat_bytes(parts.take(1)) =~= concat_bytes(parts.take(0)) + parts[0]);
    } else {
        let d = parts.drop_first();
        lemma_concat_bytes_take_step(d, i - 1);
        assert(parts.take(i + 1).drop_first() =~= d.take(i));
        assert(parts.take(i).drop_first() =~= d.take(i - 1));
        assert(parts.take(i + 1).first() == parts.first());
        assert(parts.take(i).first() == parts.first());
        assert(concat_bytes(parts.take(i + 1)) =~= concat_bytes(parts.take(i)) + parts[i]);
    }
}

/// A running sum of character counts grows one count at a time.
pub proof fn lemma_total_chars_take_step(counts: Seq<nat>, i: int)
    requires
        0 <= i < counts.len(),
    ensures
        total_chars(counts.take(i + 1)) == total_chars(counts.take(i)) + counts[i],
    decreases i,
{
    if i == 0 {
        assert(counts.take(1).drop_first() =~= Seq::<nat>::empty());
        assert(counts.take(0) =~= Seq::<nat>::empty());
        assert(counts.take(1).first() == counts[0]);
    } else {
        let d = counts.drop_first();
        lemma_total_chars_take_step(d, i - 1);
        assert(counts.take(i + 1).drop_first() =~= d.take(i));
        assert(counts.take(i).drop_first() =~= d.take(i - 1));
        assert(counts.take(i + 1).first() == counts.first());
        assert(counts.take(i).first() == counts.first());
    }
}

/// A partial sum of byte lengths never exceeds the whole sum.
pub proof fn lemma_total_len_take_le(parts: Seq<Seq<u8>>, i: int)
    requires
        0 <= i <= parts.len(),
    ensures
        total_len(parts.take(i)) <= total_len(parts),
        total_len(parts.take(i)) >= 0,
    decreases parts.len(),
{
    if i == 0 {
        assert(parts.take(0) =~= Seq::<Seq<u8>>::empty());
        lemma_concat_bytes_len(parts);
    } else {
        let d = parts.drop_first();
        lemma_total_len_take_le(d, i - 1);
        assert(parts.take(i).drop_first() =~= d.take(i - 1));
        assert(parts.take(i).first() == parts.first());
    }
}

/// Repeating a pattern `times` times yields `times` times as many bytes.
pub proof fn lemma_repeat_bytes_len(pat: Seq<u8>, times: nat)
    ensures
        repeat_bytes(pat, times).len() == times * pat.len(),
    decreases times,
{
    if times > 0 {
        lemma_repeat_bytes_len(pat, (times - 1) as nat);
        assert(times * pat.len() == (times - 1) * pat.len() + pat.len()) by (nonlinear_arith);
    }
}

/// Whether `pat` matches `value` at `index`, by bounded byte comparison.
pub(crate) fn bytes_match_at(pat: &[u8], value: &[u8], index: usize) -> (r: bool)
    ensures
        r == sym_matches_at(value@, index as int, pat@),
{
    let vlen = value.len();
    let plen = pat.len();
    if index <= vlen && plen <= vlen - index {
        let mut i: usize = 0;
        while i < plen
            invariant
                plen == pat@.len(),
                vlen == value@.len(),
                index + plen <= vlen,
                i <= plen,
                forall|j: int| 0 <= j < i ==> value@[index + j] == pat@[j],
            decreases plen - i,
        {
            if value[index + i] != pat[i] {
                assert(value@.subrange(index as int, index + pat@.len())[i as int] != pat@[i as int]);
                return false;
            }
            i += 1;
        }
        assert(value@.subrange(index as int, index + pat@.len()) =~= pat@);
        true
    } else {
        false
    }
}

/// Whether two byte slices hold the same bytes.
fn bytes_equal(a: &[u8], b: &[u8]) -> (r: bool)
    ensures
        r == (a@ == b@),
{
    if a.len() != b.len() {
        return false;
    }
    let mut i: usize = 0;
    while i < a.len()
        invariant
            a@.len() == b@.len(),
            i <= a@.len(),
            forall|j: int| 0 <= j < i ==> a@[j] == b@[j],
        decreases a@.len() - i,
    {
        if a[i] != b[i] {
            return false;
        }
        i += 1;
    }
    assert(a@ =~= b@);
    true
}

/// A fixed byte pattern with a byte length and a logical character count.
pub trait Symbol: Sized {
    /// The bytes of the pattern.
    spec fn bytes(&self) -> Seq<u8>;

    /// How many logical characters the pattern stands for.
    spec fn chars(&self) -> nat;

    /// Byte length of the pattern.
    fn len(&self) -> (r: usize)
        ensures
            r == self.bytes().len(),
    ;

    /// Number of logical characters of the pattern.
    fn len_chars(&self) -> (r: usize)
        ensures
            r == self.chars(),
    ;

    /// Borrow the underlying bytes.
    fn as_slice(&self) -> (r: &[u8])
        ensures
            r@ == self.bytes(),
    ;

    /// An owned copy of the bytes.
    fn new_vec(&self) -> (r: Vec<u8>)
        ensures
            r@ == self.bytes(),
    {
        let mut vec: Vec<u8> = Vec::new();
        vec.extend_from_slice(self.as_slice());
        proof {
            assert(vec@ =~= self.bytes());
        }
        vec
    }

    /// Consume the symbol into an owned copy of its bytes.
    fn to_vec(self) -> (r: Vec<u8>)
        ensures
            r@ == self.bytes(),
    {
        self.new_vec()
    }

    /// Whether the pattern consists of exactly the bytes of `src`.
    fn same_as_slice(&self, src: &[u8]) -> (r: bool)
        ensures
            r == (self.bytes() == src@),
    {
        bytes_equal(self.as_slice(), src)
    }

    /// Whether the pattern occurs in `value` at position `index`.
    fn contained_at(&self, value: &[u8], index: usize) -> (r: bool)
        ensures
            r == sym_matches_at(value@, index as int, self.bytes()),
    {
        bytes_match_at(self.as_slice(), value, index)
    }

    /// Whether the pattern occurs at the start of `value`.
    fn contained_at_start(&self, value: &[u8]) -> (r: bool)
        ensures
            r == sym_matches_at(value@, 0, self.bytes()),
    {
        self.contained_at(value, 0)
    }

    /// Overwrite `dst` at position `at` with the bytes of the pattern.
    fn copy_to(&self, dst: &mut Vec<u8>, at: usize)
        requires
            at + self.bytes().len() <= old(dst)@.len(),
        ensures
            final(dst)@ == old(dst)@.take(at as int) + self.bytes() + old(dst)@.skip(
                at + self.bytes().len(),
            ),
    {
        let dlen = dst.len();
        let src = self.as_slice();
        let n = src.len();
        let mut i: usize = 0;
        while i < n
            invariant
                src@ == self.bytes(),
                n == src@.len(),
                at + n <= dlen,
                i <= n,
                dlen == dst@.len(),
                dst@.len() == old(dst)@.len(),
                forall|j: int|
                    0 <= j < dst@.len() ==> dst@[j] == if at <= j < at + i {
                        src@[j - at]
                    } else {
                        old(dst)@[j]
                    },
            decreases n - i,
        {
            let b = src[i];
            let slot = vstd::std_specs::vec::vec_index_mut(dst, at + i);
            *slot = b;
            i += 1;
        }
        proof {
            assert(dst@ =~= old(dst)@.take(at as int) + self.bytes() + old(dst)@.skip(
                at + self.bytes().len(),
            ));
        }
    }

    /// Overwrite `dst` at position `at` with `times` repetitions of the pattern.
    fn copy_to_times(&self, dst: &mut Vec<u8>, at: usize, times: usize)
        requires
            at + times * self.bytes().len() <= old(dst)@.len(),
        ensures
            final(dst)@ == old(dst)@.take(at as int) + repeat_bytes(self.bytes(), times as nat)
                + old(dst)@.skip(at + times * self.bytes().len()),
    {
        let dlen = dst.len();
        let len = self.len();
        let mut t: usize = 0;
        proof {
            assert(dst@ =~= old(dst)@.take(at as int) + repeat_bytes(self.bytes(), 0)
                + old(dst)@.skip(at as int));
        }
        while t < times
            invariant
                len == self.bytes().len(),
                at + times * len <= dlen,
                t <= times,
                dlen == dst@.len(),
                dst@ == old(dst)@.take(at as int) + repeat_bytes(self.bytes(), t as nat)
                    + old(dst)@.skip(at + t * len),
                old(dst)@.len() == dlen,
            decreases times - t,
        {
            proof {
                assert(t * len + len <= times * len) by (nonlinear_arith)
                    requires
                        t < times,
                        len >= 0,
                ;
                assert(0 <= t * len) by (nonlinear_arith)
                    requires
                        t >= 0,
                        len >= 0,
                ;
                lemma_repeat_bytes_len(self.bytes(), t as nat);
                lemma_repeat_bytes_len(self.bytes(), (t + 1) as nat);
            }
            let ghost prev = dst@;
            let off = t * len;
            self.copy_to(dst, at + off);
            proof {
                assert(prev.take(at + off) =~= old(dst)@.take(at as int) + repeat_bytes(
                    self.bytes(),
                    t as nat,
                ));
                assert(prev.skip(at + off + len) =~= old(dst)@.skip(at + (t + 1) * len));
                assert(dst@ =~= old(dst)@.take(at as int) + repeat_bytes(
                    self.bytes(),
                    (t + 1) as nat,
                ) + old(dst)@.skip(at + (t + 1) * len));
            }
            t += 1;
        }
    }
}

/// A symbol whose value semantics allow passing it by copy.
pub trait CopySymbol: Symbol + Copy + Send + Sync {
    /// Byte length of the pattern, by value.
    fn len(self) -> (r: usize)
        ensures
            r == self.bytes().len(),
    ;

    /// Number of logical characters of the pattern, by value.
    fn len_chars(self) -> (r: usize)
        ensures
            r == self.chars(),
    ;

    /// Whether the pattern occurs in `value` at position `index`, by value.
    fn contained_at(self, value: &[u8], index: usize) -> (r: bool)
        ensures
            r == sym_matches_at(value@, index as int, self.bytes()),
    {
        bytes_match_at(self.as_slice(), value, index)
    }

    /// Whether the pattern occurs at the start of `value`, by value.
    fn contained_at_start(self, value: &[u8]) -> (r: bool)
        ensures
            r == sym_matches_at(value@, 0, self.bytes()),
    {
        bytes_match_at(self.as_slice(), value, 0)
    }
}

/// A tagged character of one to eight bytes held inline behind a length byte.
#[derive(Copy, Clone, Debug)]
pub struct Char {
    dt: [u8; 9],
}

impl Char {
    #[verifier::type_invariant]
    spec fn wf(self) -> bool {
        1 <= self.dt[8] <= 8
    }

    /// Build a character from one to eight bytes.
    pub fn new(src: &[u8]) -> (r: Char)
        requires
            1 <= src@.len() <= 8,
        ensures
            r.bytes() == src@,
    {
        let r = match src.len() {
            1 => Char { dt: [src[0], 0, 0, 0, 0, 0, 0, 0, 1] },
            2 => Char { dt: [src[0], src[1], 0, 0, 0, 0, 0, 0, 2] },
            3 => Char { dt: [src[0], src[1], src[2], 0, 0, 0, 0, 0, 3] },
            4 => Char { dt: [src[0], src[1], src[2], src[3], 0, 0, 0, 0, 4] },
            5 => Char { dt: [src[0], src[1], src[2], src[3], src[4], 0, 0, 0, 5] },
            6 => Char { dt: [src[0], src[1], src[2], src[3], src[4], src[5], 0, 0, 6] },
            7 => Char { dt: [src[0], src[1], src[2], src[3], src[4], src[5], src[6], 0, 7] },
            _ => Char {
                dt: [src[0], src[1], src[2], src[3], src[4], src[5], src[6], src[7], 8],
            },
        };
        proof {
            assert(r.bytes() =~= src@);
        }
        r
    }
}

impl Symbol for Char {
    closed spec fn bytes(&self) -> Seq<u8> {
        self.dt@.subrange(0, self.dt@[8] as int)
    }

    open spec fn chars(&self) -> nat {
        1
    }

    fn len(&self) -> (r: usize) {
        proof {
            use_type_invariant(self);
        }
        self.dt[8] as usize
    }

    fn len_chars(&self) -> (r: usize) {
        1
    }

    fn as_slice(&self) -> (r: &[u8]) {
        proof {
            use_type_invariant(self);
        }
        let n = self.dt[8] as usize;
        vstd::slice::slice_subrange(self.dt.as_slice(), 0, n)
    }
}

/// A single character of exactly one byte.
#[derive(Copy, Clone, Debug)]
pub struct Char1 {
    dt: [u8; 1],
}

impl Char1 {
    /// Build a one-byte character.
    pub fn new(src: u8) -> (r: Char1)
        ensures
            r.bytes() == seq![src],
    {
        let r = Char1 { dt: [src] };
        proof {
            assert(r.bytes() =~= seq![src]);
        }
        r
    }
}

impl Symbol for Char1 {
    closed spec fn bytes(&self) -> Seq<u8> {
        self.dt@
    }

    open spec fn chars(&self) -> nat {
        1
    }

    fn len(&self) -> (r: usize) {
        1
    }

    fn len_chars(&self) -> (r: usize) {
        1
    }

    fn as_slice(&self) -> (r: &[u8]) {
        self.dt.as_slice()
    }
}

impl CopySymbol for Char1 {
    fn len(self) -> (r: usize) {
        1
    }

    fn len_chars(self) -> (r: usize) {
        1
    }
}

/// A single character of exactly two bytes.
#[derive(Copy, Clone, Debug)]
pub struct Char2 {
    dt: [u8; 2],
}

impl Char2 {
    /// Build a two-byte character from exactly two bytes.
    pub fn new(src: &[u8]) -> (r: Char2)
        requires
            src@.len() == 2,
        ensures
            r.bytes() == src@,
    {
        let r = Char2 { dt: [src[0], src[1]] };
        proof {
            assert(r.bytes() =~= src@);
        }
        r
    }
}

impl Symbol for Char2 {
    closed spec fn bytes(&self) -> Seq<u8> {
        self.dt@
    }

    open spec fn chars(&self) -> nat {
        1
    }

    fn len(&self) -> (r: usize) {
        2
    }

    fn len_chars(&self) -> (r: usize) {
        1
    }

    fn as_slice(&self) -> (r: &[u8]) {
        self.dt.as_slice()
    }
}

impl CopySymbol for Char2 {
    fn len(self) -> (r: usize) {
        2
    }

    fn len_chars(self) -> (r: usize) {
        1
    }
}

/// A single character of exactly three bytes.
#[derive(Copy, Clone, Debug)]
pub struct Char3 {
    dt: [u8; 3],
}

impl Char3 {
    /// Build a three-byte character from exactly three bytes.
    pub fn new(src: &[u8]) -> (r: Char3)
        requires
            src@.len() == 3,
        ensures
            r.bytes() == src@,
    {
        let r = Char3 { dt: [src[0], src[1], src[2]] };
        proof {
            assert(r.bytes() =~= src@);
        }
        r
    }
}

impl Symbol for Char3 {
    closed spec fn bytes(&self) -> Seq<u8> {
        self.dt@
    }

    open spec fn chars(&self) -> nat {
        1
    }

    fn len(&self) -> (r: usize) {
        3
    }

    fn len_chars(&self) -> (r: usize) {
        1
    }

    fn as_slice(&self) -> (r: &[u8]) {
        self.dt.as_slice()
    }
}

impl CopySymbol for Char3 {
    fn len(self) -> (r: usize) {
        3
    }

    fn len_chars(self) -> (r: usize) {
        1
    }
}

/// A single character of exactly four bytes.
#[derive(Copy, Clone, Debug)]
pub struct Char4 {
    dt: [u8; 4],
}

impl Char4 {
    /// Build a four-byte character from exactly four bytes.
    pub fn new(src: &[u8]) -> (r: Char4)
        requires
            src@.len() == 4,
        ensures
            r.bytes() == src@,
    {
        let r = Char4 { dt: [src[0], src[1], src[2], src[3]] };
        proof {
            assert(r.bytes() =~= src@);
        }
        r
    }
}

impl Symbol for Char4 {
    closed spec fn bytes(&self) -> Seq<u8> {
        self.dt@
    }

    open spec fn chars(&self) -> nat {
        1
    }

    fn len(&self) -> (r: usize) {
        4
    }

    fn len_chars(&self) -> (r: usize) {
        1
    }

    fn as_slice(&self) -> (r: &[u8]) {
        self.dt.as_slice()
    }
}

impl CopySymbol for Char4 {
    fn len(self) -> (r: usize) {
        4
    }

    fn len_chars(self) -> (r: usize) {
        1
    }
}

/// A variable-length run of characters, held in one owned buffer.
#[derive(Clone, Debug)]
pub struct Word {
    dt: Vec<u8>,
    clen: usize,
}

impl Word {
    /// The word with no bytes and no characters.
    pub fn empty() -> (r: Word)
        ensures
            r.bytes() == Seq::<u8>::empty(),
            r.chars() == 0,
    {
        Word { dt: Vec::new(), clen: 0 }
    }

    /// Concatenate the bytes of one or more symbols into a word whose
    /// character count is the number of symbols combined.
    pub fn combine<S: Symbol>(src: &[&S]) -> (r: Word)
        requires
            src@.len() >= 1,
        ensures
            r.bytes() == concat_bytes(src@.map_values(|s: &S| s.bytes())),
            r.chars() == src@.len(),
    {
        let ghost parts = src@.map_values(|s: &S| s.bytes());
        let n = src.len();
        let mut vec: Vec<u8> = Vec::new();
        proof {
            assert(parts.take(0) =~= Seq::<Seq<u8>>::empty());
        }
        let mut i: usize = 0;
        while i < n
            invariant
                n == src@.len(),
                parts == src@.map_values(|s: &S| s.bytes()),
                i <= n,
                vec@ == concat_bytes(parts.take(i as int)),
            decreases n - i,
        {
            let s = src[i].as_slice();
            vec.extend_from_slice(s);
            proof {
                lemma_concat_bytes_take_step(parts, i as int);
                assert(vec@ =~= concat_bytes(parts.take(i as int)) + parts[i as int]);
            }
            i += 1;
        }
        proof {
            assert(parts.take(n as int) =~= parts);
        }
        Word { dt: vec, clen: n }
    }

    /// Concatenate whole words; byte contents and character counts both add up.
    pub fn concat(src: &[&Word]) -> (r: Word)
        requires
            total_chars(src@.map_values(|w: &Word| w.chars())) <= usize::MAX,
        ensures
            r.bytes() == concat_bytes(src@.map_values(|w: &Word| w.bytes())),
            r.chars() == total_chars(src@.map_values(|w: &Word| w.chars())),
    {
        let ghost parts = src@.map_values(|w: &Word| w.bytes());
        let ghost counts = src@.map_values(|w: &Word| w.chars());
        let n = src.len();
        let mut vec: Vec<u8> = Vec::new();
        let mut c_len: usize = 0;
        proof {
            assert(parts.take(0) =~= Seq::<Seq<u8>>::empty());
            assert(counts.take(0) =~= Seq::<nat>::empty());
        }
        let mut i: usize = 0;
        while i < n
            invariant
                n == src@.len(),
                parts == src@.map_values(|w: &Word| w.bytes()),
                counts == src@.map_values(|w: &Word| w.chars()),
                total_chars(counts) <= usize::MAX,
                i <= n,
                vec@ == concat_bytes(parts.take(i as int)),
                c_len == total_chars(counts.take(i as int)),
            decreases n - i,
        {
            proof {
                lemma_concat_bytes_take_step(parts, i as int);
                lemma_total_chars_take_step(counts, i as int);
                lemma_total_chars_take_le(counts, i + 1);
            }
            let s = src[i].as_slice();
            vec.extend_from_slice(s);
            proof {
                assert(vec@ =~= concat_bytes(parts.take(i as int)) + parts[i as int]);
            }
            c_len = c_len + src[i].len_chars();
            i += 1;
        }
        proof {
            assert(parts.take(n as int) =~= parts);
            assert(counts.take(n as int) =~= counts);
        }
        Word { dt: vec, clen: c_len }
    }

    /// Borrow the owned byte buffer.
    pub fn as_vec(&self) -> (r: &Vec<u8>)
        ensures
            r@ == self.bytes(),
    {
        &self.dt
    }
}

impl Symbol for Word {
    closed spec fn bytes(&self) -> Seq<u8> {
        self.dt@
    }

    closed spec fn chars(&self) -> nat {
        self.clen as nat
    }

    fn len(&self) -> (r: usize) {
        self.dt.len()
    }

    fn len_chars(&self) -> (r: usize) {
        self.clen
    }

    fn as_slice(&self) -> (r: &[u8]) {
        self.dt.as_slice()
    }

    fn to_vec(self) -> (r: Vec<u8>) {
        self.dt
    }
}

/// A partial sum of character counts never exceeds the whole sum.
pub proof fn lemma_total_chars_take_le(counts: Seq<nat>, i: int)
    requires
        0 <= i <= counts.len(),
    ensures
        total_chars(counts.take(i)) <= total_chars(counts),
        total_chars(counts.take(i)) >= 0,
    decreases counts.len(),
{
    if i == 0 {
        assert(counts.take(0) =~= Seq::<nat>::empty());
        lemma_total_chars_nonneg(counts);
    } else {
        let d = counts.drop_first();
        lemma_total_chars_take_le(d, i - 1);
        assert(counts.take(i).drop_first() =~= d.take(i - 1));
        assert(counts.take(i).first() == counts.first());
    }
}

/// A sum of character counts is never negative.
pub proof fn lemma_total_chars_nonneg(counts: Seq<nat>)
    ensures
        total_chars(counts) >= 0,
    decreases counts.len(),
{
    if counts.len() > 0 {
        lemma_total_chars_nonneg(counts.drop_first());
    }
}

impl Char {
    /// A fresh one-character word holding this character's bytes.
    pub fn new_word(&self) -> (r: Word)
        ensures
            r.bytes() == self.bytes(),
            r.chars() == 1,
    {
        let r = Word::combine(&[self]);
        proof {
            lemma_concat_single(self.bytes());
            assert((&[self])@.map_values(|s: &Char| s.bytes()) =~= seq![self.bytes()]);
        }
        r
    }

    /// Consume this character into a one-character word.
    pub fn to_word(self) -> (r: Word)
        ensures
            r.bytes() == self.bytes(),
            r.chars() == 1,
    {
        self.new_word()
    }
}

/// Concatenating a single part yields that part.
pub proof fn lemma_concat_single(part: Seq<u8>)
    ensures
        concat_bytes(seq![part]) == part,
{
    assert(seq![part].drop_first() =~= Seq::<Seq<u8>>::empty());
    assert(concat_bytes(Seq::<Seq<u8>>::empty()) == Seq::<u8>::empty());
    assert(seq![part].first() == part);
    assert(concat_bytes(seq![part]) =~= part);
}

impl Char1 {
    /// A fresh one-character word holding this character's byte.
    pub fn new_word(&self) -> (r: Word)
        ensures
            r.bytes() == self.bytes(),
            r.chars() == 1,
    {
        let r = Word::combine(&[self]);
        proof {
            lemma_concat_single(self.bytes());
            assert((&[self])@.map_values(|s: &Char1| s.bytes()) =~= seq![self.bytes()]);
        }
        r
    }

    /// Consume this character into a one-character word.
    pub fn to_word(self) -> (r: Word)
        ensures
            r.bytes() == self.bytes(),
            r.chars() == 1,
    {
        self.new_word()
    }
}

impl Char2 {
    /// A fresh one-character word holding this character's bytes.
    pub fn new_word(&self) -> (r: Word)
        ensures
            r.bytes() == self.bytes(),
            r.chars() == 1,
    {
        let r = Word::combine(&[self]);
        proof {
            lemma_concat_single(self.bytes());
            assert((&[self])@.map_values(|s: &Char2| s.bytes()) =~= seq![self.bytes()]);
        }
        r
    }

    /// Consume this character into a one-character word.
    pub fn to_word(self) -> (r: Word)
        ensures
            r.bytes() == self.bytes(),
            r.chars() == 1,
    {
        self.new_word()
    }
}

impl Char3 {
    /// A fresh one-character word holding this character's bytes.
    pub fn new_word(&self) -> (r: Word)
        ensures
            r.bytes() == self.bytes(),
            r.chars() == 1,
    {
        let r = Word::combine(&[self]);
        proof {
            lemma_concat_single(self.bytes());
            assert((&[self])@.map_values(|s: &Char3| s.bytes()) =~= seq![self.bytes()]);
        }
        r
    }

    /// Consume this character into a one-character word.
    pub fn to_word(self) -> (r: Word)
        ensures
            r.bytes() == self.bytes(),
            r.chars() == 1,
    {
        self.new_word()
    }
}

impl Char4 {
    /// A fresh one-character word holding this character's bytes.
    pub fn new_word(&self) -> (r: Word)
        ensures
            r.bytes() == self.bytes(),
            r.chars() == 1,
    {
        let r = Word::combine(&[self]);
        proof {
            lemma_concat_single(self.bytes());
            assert((&[self])@.map_values(|s: &Char4| s.bytes()) =~= seq![self.bytes()]);
        }
        r
    }

    /// Consume this character into a one-character word.
    pub fn to_word(self) -> (r: Word)
        ensures
            r.bytes() == self.bytes(),
            r.chars() == 1,
    {
        self.new_word()
    }
}

/// A builder that packs the bytes of a list of symbols into one symbol.
///
/// Fixed-size targets accept only lists whose bytes fit exactly, so the
/// builder reports failure as `None` instead of producing a value.
pub trait Combo: Sized {
    /// Combine the bytes of `from` into a new symbol, when they fit.
    fn combine<S: Symbol>(from: &[S]) -> Option<Self>;
}

impl Combo for Char2 {
    /// Exactly two one-byte characters combine into a `Char2`.
    fn combine<S: Symbol>(from: &[S]) -> (r: Option<Char2>)
        ensures
            r.is_some() <==> from@.len() == 2 && from@[0].bytes().len() == 1
                && from@[1].bytes().len() == 1,
            r matches Some(c) ==> c.bytes() == from@[0].bytes() + from@[1].bytes(),
    {
        if from.len() != 2 {
            return None;
        }
        let a = from[0].as_slice();
        let b = from[1].as_slice();
        if a.len() != 1 || b.len() != 1 {
            return None;
        }
        let r = Char2 { dt: [a[0], b[0]] };
        proof {
            assert(r.bytes() =~= from@[0].bytes() + from@[1].bytes());
        }
        Some(r)
    }
}

impl Combo for Char3 {
    /// Symbols whose bytes total exactly three combine into a `Char3`.
    fn combine<S: Symbol>(from: &[S]) -> (r: Option<Char3>)
        ensures
            r.is_some() <==> total_len(from@.map_values(|s: S| s.bytes())) == 3,
            r matches Some(c) ==> c.bytes() == concat_bytes(from@.map_values(|s: S| s.bytes())),
    {
        let vec = gather_bytes(from);
        proof {
            lemma_concat_bytes_len(from@.map_values(|s: S| s.bytes()));
        }
        if vec.len() != 3 {
            return None;
        }
        Some(Char3::new(vec.as_slice()))
    }
}

impl Combo for Char4 {
    /// Symbols whose bytes total exactly four combine into a `Char4`.
    fn combine<S: Symbol>(from: &[S]) -> (r: Option<Char4>)
        ensures
            r.is_some() <==> total_len(from@.map_values(|s: S| s.bytes())) == 4,
            r matches Some(c) ==> c.bytes() == concat_bytes(from@.map_values(|s: S| s.bytes())),
    {
        let vec = gather_bytes(from);
        proof {
            lemma_concat_bytes_len(from@.map_values(|s: S| s.bytes()));
        }
        if vec.len() != 4 {
            return None;
        }
        Some(Char4::new(vec.as_slice()))
    }
}

impl Combo for Word {
    /// Any symbols with at least one byte in total combine into a word whose
    /// character count is the sum of the components' counts; built through
    /// [`Word::combo`], which carries the contract.
    fn combine<S: Symbol>(from: &[S]) -> Option<Word> {
        Word::combo(from)
    }
}

impl Word {
    /// Any symbols with at least one byte in total combine into a word whose
    /// character count is the sum of the components' counts.
    pub fn combo<S: Symbol>(from: &[S]) -> (r: Option<Word>)
        ensures
            r.is_some() <==> total_len(from@.map_values(|s: S| s.bytes())) > 0 && total_chars(
                from@.map_values(|s: S| s.chars()),
            ) <= usize::MAX,
            r matches Some(w) ==> w.bytes() == concat_bytes(from@.map_values(|s: S| s.bytes()))
                && w.chars() == total_chars(from@.map_values(|s: S| s.chars())),
    {
        let ghost parts = from@.map_values(|s: S| s.bytes());
        let ghost counts = from@.map_values(|s: S| s.chars());
        let vec = gather_bytes(from);
        proof {
            lemma_concat_bytes_len(parts);
        }
        let n = from.len();
        let mut c_len: usize = 0;
        proof {
            assert(counts.take(0) =~= Seq::<nat>::empty());
        }
        let mut i: usize = 0;
        while i < n
            invariant
                n == from@.len(),
                counts == from@.map_values(|s: S| s.chars()),
                i <= n,
                c_len == total_chars(counts.take(i as int)),
            decreases n - i,
        {
            let c = from[i].len_chars();
            proof {
                lemma_total_chars_take_step(counts, i as int);
                lemma_total_chars_take_le(counts, i + 1);
            }
            if c > usize::MAX - c_len {
                proof {
                    lemma_total_chars_take_le(counts, n as int);
                    assert(counts.take(n as int) =~= counts);
                }
                return None;
            }
            c_len = c_len + c;
            i += 1;
        }
        proof {
            assert(counts.take(n as int) =~= counts);
        }
        if vec.len() == 0 {
            return None;
        }
        Some(Word { dt: vec, clen: c_len })
    }
}

/// Collect the bytes of a list of symbols into one owned buffer.
fn gather_bytes<S: Symbol>(from: &[S]) -> (r: Vec<u8>)
    ensures
        r@ == concat_bytes(from@.map_values(|s: S| s.bytes())),
{
    let ghost parts = from@.map_values(|s: S| s.bytes());
    let n = from.len();
    let mut vec: Vec<u8> = Vec::new();
    proof {
        assert(parts.take(0) =~= Seq::<Seq<u8>>::empty());
    }
    let mut i: usize = 0;
    while i < n
        invariant
            n == from@.len(),
            parts == from@.map_values(|s: S| s.bytes()),
            i <= n,
            vec@ == concat_bytes(parts.take(i as int)),
        decreases n - i,
    {
        let s = from[i].as_slice();
        vec.extend_from_slice(s);
        proof {
            lemma_concat_bytes_take_step(parts, i as int);
            assert(vec@ =~= concat_bytes(parts.take(i as int)) + parts[i as int]);
        }
        i += 1;
    }
    proof {
        assert(parts.take(n as int) =~= parts);
    }
    vec
}

/// Any symbol variant behind one tagged type.
#[derive(Clone, Debug)]
pub enum Rune {
    Char(Char),
    Chr1(Char1),
    Chr2(Char2),
    Chr3(Char3),
    Chr4(Char4),
    Word(Word),
}

impl Symbol for Rune {
    open spec fn bytes(&self) -> Seq<u8> {
        match self {
            Rune::Char(c) => c.bytes(),
            Rune::Chr1(c) => c.bytes(),
            Rune::Chr2(c) => c.bytes(),
            Rune::Chr3(c) => c.bytes(),
            Rune::Chr4(c) => c.bytes(),
            Rune::Word(w) => w.bytes(),
        }
    }

    open spec fn chars(&self) -> nat {
        match self {
            Rune::Char(c) => c.chars(),
            Rune::Chr1(c) => c.chars(),
            Rune::Chr2(c) => c.chars(),
            Rune::Chr3(c) => c.chars(),
            Rune::Chr4(c) => c.chars(),
            Rune::Word(w) => w.chars(),
        }
    }

    fn len(&self) -> (r: usize) {
        match self {
            Rune::Char(c) => c.len(),
            Rune::Chr1(c) => c.len(),
            Rune::Chr2(c) => c.len(),
            Rune::Chr3(c) => c.len(),
            Rune::Chr4(c) => c.len(),
            Rune::Word(w) => w.len(),
        }
    }

    fn len_chars(&self) -> (r: usize) {
        match self {
            Rune::Char(c) => c.len_chars(),
            Rune::Chr1(c) => c.len_chars(),
            Rune::Chr2(c) => c.len_chars(),
            Rune::Chr3(c) => c.len_chars(),
            Rune::Chr4(c) => c.len_chars(),
            Rune::Word(w) => w.len_chars(),
        }
    }

    fn as_slice(&self) -> (r: &[u8]) {
        match self {
            Rune::Char(c) => c.as_slice(),
            Rune::Chr1(c) => c.as_slice(),
            Rune::Chr2(c) => c.as_slice(),
            Rune::Chr3(c) => c.as_slice(),
            Rune::Chr4(c) => c.as_slice(),
            Rune::Word(w) => w.as_slice(),
        }
    }
}

impl From<Char> for Rune {
    fn from(c: Char) -> (r: Rune) {
        Rune::Char(c)
    }
}

impl vstd::std_specs::convert::FromSpecImpl<Char> for Rune {
    open spec fn obeys_from_spec() -> bool {
        true
    }

    open spec fn from_spec(c: Char) -> Rune {
        Rune::Char(c)
    }
}

impl From<Char1> for Rune {
    fn from(c: Char1) -> (r: Rune) {
        Rune::Chr1(c)
    }
}

impl vstd::std_specs::convert::FromSpecImpl<Char1> for Rune {
    open spec fn obeys_from_spec() -> bool {
        true
    }

    open spec fn from_spec(c: Char1) -> Rune {
        Rune::Chr1(c)
    }
}

impl From<Char2> for Rune {
    fn from(c: Char2) -> (r: Rune) {
        Rune::Chr2(c)
    }
}

impl vstd::std_specs::convert::FromSpecImpl<Char2> for Rune {
    open spec fn obeys_from_spec() -> bool {
        true
    }

    open spec fn from_spec(c: Char2) -> Rune {
        Rune::Chr2(c)
    }
}

impl From<Char3> for Rune {
    fn from(c: Char3) -> (r: Rune) {
        Rune::Chr3(c)
    }
}

impl vstd::std_specs::convert::FromSpecImpl<Char3> for Rune {
    open spec fn obeys_from_spec() -> bool {
        true
    }

    open spec fn from_spec(c: Char3) -> Rune {
        Rune::Chr3(c)
    }
}

impl From<Char4> for Rune {
    fn from(c: Char4) -> (r: Rune) {
        Rune::Chr4(c)
    }
}

impl vstd::std_specs::convert::FromSpecImpl<Char4> for Rune {
    open spec fn obeys_from_spec() -> bool {
        true
    }

    open spec fn from_spec(c: Char4) -> Rune {
        Rune::Chr4(c)
    }
}

impl From<Word> for Rune {
    fn from(w: Word) -> (r: Rune) {
        Rune::Word(w)
    }
}

impl vstd::std_specs::convert::FromSpecImpl<Word> for Rune {
    open spec fn obeys_from_spec() -> bool {
        true
    }

    open spec fn from_spec(w: Word) -> Rune {
        Rune::Word(w)
    }
}

impl<C1: Symbol, C2: Symbol> Symbol for Result<C1, C2> {
    open spec fn bytes(&self) -> Seq<u8> {
        match self {
            Ok(c) => c.bytes(),
            Err(c) => c.bytes(),
        }
    }

    open spec fn chars(&self) -> nat {
        match self {
            Ok(c) => c.chars(),
            Err(c) => c.chars(),
        }
    }

    fn len(&self) -> (r: usize) {
        match self {
            Ok(c) => c.len(),
            Err(c) => c.len(),
        }
    }

    fn len_chars(&self) -> (r: usize) {
        match self {
            Ok(c) => c.len_chars(),
            Err(c) => c.len_chars(),
        }
    }

    fn as_slice(&self) -> (r: &[u8]) {
        match self {
            Ok(c) => c.as_slice(),
            Err(c) => c.as_slice(),
        }
    }
}

impl<C1: CopySymbol, C2: CopySymbol> CopySymbol for Result<C1, C2> {
    fn len(self) -> (r: usize) {
        match self {
            Ok(c) => CopySymbol::len(c),
            Err(c) => CopySymbol::len(c),
        }
    }

    fn len_chars(self) -> (r: usize) {
        match self {
            Ok(c) => CopySymbol::len_chars(c),
            Err(c) => CopySymbol::len_chars(c),
        }
    }
}

} // verus!
