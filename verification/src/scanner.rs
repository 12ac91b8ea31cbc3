//! The tokenizing engine: advance over a reader until a stop condition is
//! met, honoring escape sequences, quoted regions, and nestable braces.
//!
//! Rule lists are tried in a fixed order of precedence: stops, escapes,
//! quotes, braces, then a one-byte fallthrough. Within a list the first
//! match wins.

use vstd::prelude::*;

use crate::feed::Read;
use crate::feed::clamped;
use crate::symbol::Symbol;
use crate::symbol::Word;
use crate::symbol::sym_matches_at;

verus! {

/// No terminators.
pub const NO_STOPS: [(Stop, Word); 0] = [];

/// No escape sequences.
pub const NO_ESCAPES: [Word; 0] = [];

/// No quoted regions.
pub const NO_QUOTES: [(Quote, Word); 0] = [];

/// No brace regions.
pub const NO_BRACES: [(Brace, (Word, Word)); 0] = [];

/// How a matched terminator behaves.
pub struct Stop {
    /// Inside an open quoted region this stop is ignored.
    pub quoted: bool,
    /// A preceding active escape suppresses this stop.
    pub escaped: bool,
    /// After a match, keep absorbing consecutive terminators and use the last.
    pub greedy: bool,
    /// The stop's bytes are consumed but not counted as content.
    pub skip: bool,
}

impl Stop {
    /// A stop with every flag set.
    pub fn new() -> (r: Stop)
        ensures
            r.quoted && r.escaped && r.greedy && r.skip,
    {
        Stop { quoted: true, escaped: true, greedy: true, skip: true }
    }

    /// Set whether the stop's bytes are dropped from the result.
    pub fn skip(self, skip: bool) -> (r: Stop)
        ensures
            r == (Stop { skip, ..self }),
    {
        Stop { skip, ..self }
    }

    /// Set whether consecutive terminators are absorbed.
    pub fn greedy(self, greedy: bool) -> (r: Stop)
        ensures
            r == (Stop { greedy, ..self }),
    {
        Stop { greedy, ..self }
    }

    /// Set whether an active escape suppresses the stop.
    pub fn escaped(self, flag: bool) -> (r: Stop)
        ensures
            r == (Stop { escaped: flag, ..self }),
    {
        Stop { escaped: flag, ..self }
    }

    /// Set whether an open quote suppresses the stop.
    pub fn quoted(self, flag: bool) -> (r: Stop)
        ensures
            r == (Stop { quoted: flag, ..self }),
    {
        Stop { quoted: flag, ..self }
    }
}

/// How a paired, nestable region behaves.
pub struct Brace {
    /// While this brace is open, stops are suppressed.
    pub escapes_stop: bool,
    /// Inside an open quoted region this brace is ignored.
    pub quoted: bool,
    /// A preceding active escape suppresses this brace.
    pub escaped: bool,
    /// The close that returns to depth zero terminates the scan.
    pub is_stop: bool,
}

impl Brace {
    /// A brace with every flag set.
    pub fn new() -> (r: Brace)
        ensures
            r.escaped && r.quoted && r.is_stop && r.escapes_stop,
    {
        Brace { escaped: true, quoted: true, is_stop: true, escapes_stop: true }
    }

    /// Set whether the closing brace at depth zero terminates the scan.
    pub fn is_stop(self, flag: bool) -> (r: Brace)
        ensures
            r == (Brace { is_stop: flag, ..self }),
    {
        Brace { is_stop: flag, ..self }
    }

    /// Set whether an open brace suppresses stops.
    pub fn escapes_stop(self, flag: bool) -> (r: Brace)
        ensures
            r == (Brace { escapes_stop: flag, ..self }),
    {
        Brace { escapes_stop: flag, ..self }
    }

    /// Set whether an active escape suppresses the brace.
    pub fn escaped(self, flag: bool) -> (r: Brace)
        ensures
            r == (Brace { escaped: flag, ..self }),
    {
        Brace { escaped: flag, ..self }
    }

    /// Set whether an open quote suppresses the brace.
    pub fn quoted(self, flag: bool) -> (r: Brace)
        ensures
            r == (Brace { quoted: flag, ..self }),
    {
        Brace { quoted: flag, ..self }
    }
}

/// How a symmetric quoted region behaves.
pub struct Quote {
    /// While this quote is open, stops are suppressed.
    pub escapes_stop: bool,
    /// A preceding active escape suppresses the quote.
    pub escaped: bool,
    /// A closing quote doubled with the same symbol reopens the region.
    pub greedy: bool,
    /// The closing quote terminates the scan.
    pub is_stop: bool,
}

impl Quote {
    /// A quote with every flag set.
    pub fn new() -> (r: Quote)
        ensures
            r.escapes_stop && r.escaped && r.greedy && r.is_stop,
    {
        Quote { escapes_stop: true, escaped: true, greedy: true, is_stop: true }
    }

    /// Set whether the closing quote terminates the scan.
    pub fn is_stop(self, flag: bool) -> (r: Quote)
        ensures
            r == (Quote { is_stop: flag, ..self }),
    {
        Quote { is_stop: flag, ..self }
    }

    /// Set whether the open region suppresses stops.
    pub fn escapes_stop(self, flag: bool) -> (r: Quote)
        ensures
            r == (Quote { escapes_stop: flag, ..self }),
    {
        Quote { escapes_stop: flag, ..self }
    }

    /// Set whether an active escape suppresses the quote.
    pub fn escaped(self, flag: bool) -> (r: Quote)
        ensures
            r == (Quote { escaped: flag, ..self }),
    {
        Quote { escaped: flag, ..self }
    }

    /// Set whether a doubled closing quote reopens the region.
    pub fn greedy(self, flag: bool) -> (r: Quote)
        ensures
            r == (Quote { greedy: flag, ..self }),
    {
        Quote { greedy: flag, ..self }
    }
}

/// The first pattern of `syms`, from index `i` on, that occurs in `buf` at
/// position `at`.
pub open spec fn first_match_from(buf: Seq<u8>, at: int, syms: Seq<Seq<u8>>, i: int) -> Option<int>
    decreases syms.len() - i,
{
    if i < 0 || i >= syms.len() {
        None
    } else if sym_matches_at(buf, at, syms[i]) {
        Some(i)
    } else {
        first_match_from(buf, at, syms, i + 1)
    }
}

/// The first pattern of `syms` that occurs in `buf` at position `at`.
pub open spec fn first_match(buf: Seq<u8>, at: int, syms: Seq<Seq<u8>>) -> Option<int> {
    first_match_from(buf, at, syms, 0)
}

/// What scanning forward from `from` finds: how many bytes lie before the
/// first position where one of `syms` occurs, and which symbol occurs there
/// with its length, if the input does not run out first.
pub open spec fn spec_scan_until(buf: Seq<u8>, from: int, syms: Seq<Seq<u8>>) -> (int, Option<
    (int, int),
>)
    decreases buf.len() - from,
{
    if from + 1 > buf.len() {
        (0, None::<(int, int)>)
    } else {
        match first_match(buf, from, syms) {
            Some(i) => (0, Some((i, syms[i].len() as int))),
            None => {
                let r = spec_scan_until(buf, from + 1, syms);
                (r.0 + 1, r.1)
            },
        }
    }
}

/// What scanning a run of symbols from `from` yields: the bytes covered by
/// consecutive matches and the characters they stand for.
pub open spec fn spec_scan_while(
    buf: Seq<u8>,
    from: int,
    syms: Seq<Seq<u8>>,
    chars: Seq<nat>,
) -> (int, int)
    decreases buf.len() - from,
{
    match first_match(buf, from, syms) {
        None => (0int, 0int),
        Some(i) => {
            if 0 <= i < syms.len() {
                let l = syms[i].len() as int;
                if l >= 1 && 0 <= from && from + l <= buf.len() {
                    let r = spec_scan_while(buf, from + l, syms, chars);
                    (l + r.0, chars[i] + r.1)
                } else {
                    (0int, 0int)
                }
            } else {
                (0int, 0int)
            }
        },
    }
}

/// A first match names a symbol that indeed occurs at the position.
pub proof fn lemma_first_match_from_props(buf: Seq<u8>, at: int, syms: Seq<Seq<u8>>, k: int)
    requires
        0 <= k,
    ensures
        match first_match_from(buf, at, syms, k) {
            Some(i) => k <= i < syms.len() && sym_matches_at(buf, at, syms[i]),
            None => true,
        },
    decreases syms.len() - k,
{
    if k < syms.len() && !sym_matches_at(buf, at, syms[k]) {
        lemma_first_match_from_props(buf, at, syms, k + 1);
    }
}

/// A first match names a symbol that indeed occurs at the position.
pub proof fn lemma_first_match_props(buf: Seq<u8>, at: int, syms: Seq<Seq<u8>>)
    ensures
        match first_match(buf, at, syms) {
            Some(i) => 0 <= i < syms.len() && sym_matches_at(buf, at, syms[i]),
            None => true,
        },
{
    lemma_first_match_from_props(buf, at, syms, 0);
}

/// Find the first symbol of `symbols` that occurs at offset `offset` past
/// the reader's cursor.
fn _look_for_symbols<R: Read, S: Symbol>(reader: &mut R, symbols: &[S], offset: usize) -> (r:
    Option<(usize, usize)>)
    ensures
        *final(reader) == *old(reader),
        match r {
            Some((idx, len)) => {
                &&& first_match(
                    old(reader).content(),
                    old(reader).pos() + offset,
                    symbols@.map_values(|s: S| s.bytes()),
                ) == Some(idx as int)
                &&& idx < symbols@.len()
                &&& len == symbols@[idx as int].bytes().len()
            },
            None => first_match(
                old(reader).content(),
                old(reader).pos() + offset,
                symbols@.map_values(|s: S| s.bytes()),
            ) is None,
        },
{
    let ghost buf = old(reader).content();
    let ghost at = old(reader).pos() + offset;
    let ghost syms = symbols@.map_values(|s: S| s.bytes());
    let n = symbols.len();
    let mut idx: usize = 0;
    while idx < n
        invariant
            *reader == *old(reader),
            n == symbols@.len(),
            syms == symbols@.map_values(|s: S| s.bytes()),
            buf == old(reader).content(),
            at == old(reader).pos() + offset,
            idx <= n,
            first_match(buf, at, syms) == first_match_from(buf, at, syms, idx as int),
        decreases n - idx,
    {
        if reader.contains_at(&symbols[idx], offset) {
            return Some((idx, symbols[idx].len()));
        }
        proof {
            assert(first_match_from(buf, at, syms, idx as int) == first_match_from(
                buf,
                at,
                syms,
                idx + 1,
            ));
        }
        idx += 1;
    }
    None
}

/// Test the symbol list once at offset `at`: the first matching symbol's
/// index and byte length, or nothing.
pub fn scan_one_at<R: Read, S: Symbol>(at: usize, reader: &mut R, symbols: &[S]) -> (r: Option<
    (usize, usize),
>)
    ensures
        *final(reader) == *old(reader),
        match r {
            Some((idx, len)) => {
                &&& first_match(
                    old(reader).content(),
                    old(reader).pos() + at,
                    symbols@.map_values(|s: S| s.bytes()),
                ) == Some(idx as int)
                &&& idx < symbols@.len()
                &&& len == symbols@[idx as int].bytes().len()
            },
            None => first_match(
                old(reader).content(),
                old(reader).pos() + at,
                symbols@.map_values(|s: S| s.bytes()),
            ) is None,
        },
{
    _look_for_symbols(reader, symbols, at)
}

/// Test the symbol list once at the cursor.
pub fn scan_one<R: Read, S: Symbol>(reader: &mut R, symbols: &[S]) -> (r: Option<(usize, usize)>)
    ensures
        *final(reader) == *old(reader),
        match r {
            Some((idx, len)) => {
                &&& first_match(
                    old(reader).content(),
                    old(reader).pos(),
                    symbols@.map_values(|s: S| s.bytes()),
                ) == Some(idx as int)
                &&& idx < symbols@.len()
                &&& len == symbols@[idx as int].bytes().len()
            },
            None => first_match(
                old(reader).content(),
                old(reader).pos(),
                symbols@.map_values(|s: S| s.bytes()),
            ) is None,
        },
{
    scan_one_at(0, reader, symbols)
}

/// Scan forward from offset `at` without moving the cursor: how many bytes
/// lie before the first symbol occurrence, and which symbol it is.
pub fn scan_until_at<R: Read, S: Symbol>(at: usize, reader: &mut R, symbols: &[S]) -> (r: (
    usize,
    Option<(usize, usize)>,
))
    requires
        old(reader).wf(),
    ensures
        *final(reader) == *old(reader),
        ({
            let found = spec_scan_until(
                old(reader).content(),
                old(reader).pos() + at,
                symbols@.map_values(|s: S| s.bytes()),
            );
            &&& r.0 == found.0
            &&& match found.1 {
                Some((i, l)) => r.1 == Some((i as usize, l as usize)),
                None => r.1 is None,
            }
        }),
{
    let ghost buf = old(reader).content();
    let ghost base = old(reader).pos();
    let ghost syms = symbols@.map_values(|s: S| s.bytes());
    proof {
        old(reader).lemma_wf();
    }
    let mut scanned: usize = at;
    loop
        invariant
            *reader == *old(reader),
            old(reader).wf(),
            buf == old(reader).content(),
            base == old(reader).pos(),
            syms == symbols@.map_values(|s: S| s.bytes()),
            at <= scanned,
            0 <= base,
            base <= buf.len() <= usize::MAX,
            spec_scan_until(buf, base + at, syms) == {
                let tail = spec_scan_until(buf, base + scanned, syms);
                (scanned - at + tail.0, tail.1)
            },
        ensures
            ({
                let found = spec_scan_until(buf, base + at, syms);
                &&& found.0 == scanned - at
                &&& found.1 is None
            }),
        decreases buf.len() - base - scanned,
    {
        if scanned == usize::MAX {
            proof {
                assert(spec_scan_until(buf, base + scanned, syms) == (0int, None::<(int, int)>));
            }
            break ;
        }
        if !reader.has(scanned + 1) {
            proof {
                assert(spec_scan_until(buf, base + scanned, syms) == (0int, None::<(int, int)>));
            }
            break ;
        }
        if let Some((idx, len)) = _look_for_symbols(reader, symbols, scanned) {
            proof {
                assert(spec_scan_until(buf, base + scanned, syms) == (
                    0int,
                    Some((idx as int, len as int)),
                ));
            }
            return (scanned - at, Some((idx, len)));
        }
        proof {
            assert(spec_scan_until(buf, base + scanned, syms) == {
                let tail = spec_scan_until(buf, base + scanned + 1, syms);
                (tail.0 + 1, tail.1)
            });
        }
        scanned += 1;
    }
    (scanned - at, None)
}

/// Scan forward from the cursor without moving it.
pub fn scan_until<R: Read, S: Symbol>(reader: &mut R, symbols: &[S]) -> (r: (
    usize,
    Option<(usize, usize)>,
))
    requires
        old(reader).wf(),
    ensures
        *final(reader) == *old(reader),
        ({
            let found = spec_scan_until(
                old(reader).content(),
                old(reader).pos(),
                symbols@.map_values(|s: S| s.bytes()),
            );
            &&& r.0 == found.0
            &&& match found.1 {
                Some((i, l)) => r.1 == Some((i as usize, l as usize)),
                None => r.1 is None,
            }
        }),
{
    scan_until_at(0, reader, symbols)
}

/// Advance the cursor one byte at a time until a symbol occurs at it: the
/// bytes skipped, and which symbol stopped the walk.
pub fn skip_until<R: Read, S: Symbol>(reader: &mut R, symbols: &[S]) -> (r: (
    usize,
    Option<(usize, usize)>,
))
    requires
        old(reader).wf(),
    ensures
        final(reader).wf(),
        final(reader).content() == old(reader).content(),
        ({
            let found = spec_scan_until(
                old(reader).content(),
                old(reader).pos(),
                symbols@.map_values(|s: S| s.bytes()),
            );
            &&& r.0 == found.0
            &&& match found.1 {
                Some((i, l)) => r.1 == Some((i as usize, l as usize)),
                None => r.1 is None,
            }
            &&& final(reader).pos() == old(reader).pos() + found.0
        }),
{
    let ghost buf = old(reader).content();
    let ghost base = old(reader).pos();
    let ghost syms = symbols@.map_values(|s: S| s.bytes());
    proof {
        old(reader).lemma_wf();
    }
    let mut skipped: usize = 0;
    loop
        invariant
            reader.wf(),
            reader.content() == buf,
            reader.pos() == base + skipped,
            buf == old(reader).content(),
            base == old(reader).pos(),
            syms == symbols@.map_values(|s: S| s.bytes()),
            0 <= base,
            base + skipped <= buf.len() <= usize::MAX,
            spec_scan_until(buf, base, syms) == {
                let tail = spec_scan_until(buf, base + skipped, syms);
                (skipped + tail.0, tail.1)
            },
        ensures
            reader.wf(),
            reader.content() == buf,
            reader.pos() == base + skipped,
            ({
                let found = spec_scan_until(buf, base, syms);
                &&& found.0 == skipped
                &&& found.1 is None
            }),
        decreases buf.len() - base - skipped,
    {
        if !reader.has(1) {
            proof {
                assert(spec_scan_until(buf, base + skipped, syms) == (0int, None::<(int, int)>));
            }
            break ;
        }
        if let Some((idx, len)) = _look_for_symbols(reader, symbols, 0) {
            proof {
                assert(spec_scan_until(buf, base + skipped, syms) == (
                    0int,
                    Some((idx as int, len as int)),
                ));
            }
            return (skipped, Some((idx, len)));
        }
        proof {
            assert(spec_scan_until(buf, base + skipped, syms) == {
                let tail = spec_scan_until(buf, base + skipped + 1, syms);
                (tail.0 + 1, tail.1)
            });
        }
        skipped += reader.skip(1);
    }
    (skipped, None)
}

/// Scan from offset `at` over a run of consecutive symbol matches without
/// moving the cursor: the bytes covered and the characters they stand for.
pub fn scan_while_at<R: Read, S: Symbol>(at: usize, reader: &mut R, symbols: &[S]) -> (r: (
    usize,
    usize,
))
    requires
        old(reader).wf(),
        forall|i: int|
            0 <= i < symbols@.len() ==> 1 <= (#[trigger] symbols@[i]).bytes().len() && symbols@[i].chars()
                <= symbols@[i].bytes().len(),
    ensures
        *final(reader) == *old(reader),
        ({
            let found = spec_scan_while(
                old(reader).content(),
                old(reader).pos() + at,
                symbols@.map_values(|s: S| s.bytes()),
                symbols@.map_values(|s: S| s.chars()),
            );
            r.0 == found.0 && r.1 == found.1
        }),
{
    let ghost buf = old(reader).content();
    let ghost base = old(reader).pos();
    let ghost syms = symbols@.map_values(|s: S| s.bytes());
    let ghost schars = symbols@.map_values(|s: S| s.chars());
    proof {
        old(reader).lemma_wf();
    }
    let mut scanned: usize = at;
    let mut chars: usize = 0;
    loop
        invariant
            *reader == *old(reader),
            old(reader).wf(),
            buf == old(reader).content(),
            base == old(reader).pos(),
            syms == symbols@.map_values(|s: S| s.bytes()),
            schars == symbols@.map_values(|s: S| s.chars()),
            forall|i: int|
                0 <= i < symbols@.len() ==> 1 <= (#[trigger] symbols@[i]).bytes().len()
                    && symbols@[i].chars() <= symbols@[i].bytes().len(),
            at <= scanned,
            chars <= scanned - at,
            0 <= base,
            base <= buf.len() <= usize::MAX,
            spec_scan_while(buf, base + at, syms, schars) == {
                let tail = spec_scan_while(buf, base + scanned, syms, schars);
                (scanned - at + tail.0, chars + tail.1)
            },
        ensures
            ({
                let found = spec_scan_while(buf, base + at, syms, schars);
                found.0 == scanned - at && found.1 == chars
            }),
        decreases buf.len() - base - scanned,
    {
        if let Some((idx, len)) = _look_for_symbols(reader, symbols, scanned) {
            proof {
                lemma_first_match_props(buf, base + scanned, syms);
                assert(spec_scan_while(buf, base + scanned, syms, schars) == {
                    let tail = spec_scan_while(buf, base + scanned + len, syms, schars);
                    (len + tail.0, schars[idx as int] + tail.1)
                });
            }
            scanned += len;
            chars += symbols[idx].len_chars();
        } else {
            proof {
                assert(spec_scan_while(buf, base + scanned, syms, schars) == (0int, 0int));
            }
            break ;
        }
    }
    (scanned - at, chars)
}

/// Scan a run of consecutive symbol matches at the cursor without moving it.
pub fn scan_while<R: Read, S: Symbol>(reader: &mut R, symbols: &[S]) -> (r: (usize, usize))
    requires
        old(reader).wf(),
        forall|i: int|
            0 <= i < symbols@.len() ==> 1 <= (#[trigger] symbols@[i]).bytes().len() && symbols@[i].chars()
                <= symbols@[i].bytes().len(),
    ensures
        *final(reader) == *old(reader),
        ({
            let found = spec_scan_while(
                old(reader).content(),
                old(reader).pos(),
                symbols@.map_values(|s: S| s.bytes()),
                symbols@.map_values(|s: S| s.chars()),
            );
            r.0 == found.0 && r.1 == found.1
        }),
{
    scan_while_at(0, reader, symbols)
}

/// Advance the cursor over a run of consecutive symbol matches: the bytes
/// skipped and the characters they stand for.
pub fn skip_while<R: Read, S: Symbol>(reader: &mut R, symbols: &[S]) -> (r: (usize, usize))
    requires
        old(reader).wf(),
        forall|i: int|
            0 <= i < symbols@.len() ==> 1 <= (#[trigger] symbols@[i]).bytes().len() && symbols@[i].chars()
                <= symbols@[i].bytes().len(),
    ensures
        final(reader).wf(),
        final(reader).content() == old(reader).content(),
        ({
            let found = spec_scan_while(
                old(reader).content(),
                old(reader).pos(),
                symbols@.map_values(|s: S| s.bytes()),
                symbols@.map_values(|s: S| s.chars()),
            );
            &&& r.0 == found.0
            &&& r.1 == found.1
            &&& final(reader).pos() == old(reader).pos() + found.0
        }),
{
    let ghost buf = old(reader).content();
    let ghost base = old(reader).pos();
    let ghost syms = symbols@.map_values(|s: S| s.bytes());
    let ghost schars = symbols@.map_values(|s: S| s.chars());
    proof {
        old(reader).lemma_wf();
    }
    let mut skipped: usize = 0;
    let mut chars: usize = 0;
    loop
        invariant
            reader.wf(),
            reader.content() == buf,
            reader.pos() == base + skipped,
            buf == old(reader).content(),
            base == old(reader).pos(),
            syms == symbols@.map_values(|s: S| s.bytes()),
            schars == symbols@.map_values(|s: S| s.chars()),
            forall|i: int|
                0 <= i < symbols@.len() ==> 1 <= (#[trigger] symbols@[i]).bytes().len()
                    && symbols@[i].chars() <= symbols@[i].bytes().len(),
            chars <= skipped,
            0 <= base,
            base + skipped <= buf.len() <= usize::MAX,
            spec_scan_while(buf, base, syms, schars) == {
                let tail = spec_scan_while(buf, base + skipped, syms, schars);
                (skipped + tail.0, chars + tail.1)
            },
        ensures
            reader.wf(),
            reader.content() == buf,
            reader.pos() == base + skipped,
            ({
                let found = spec_scan_while(buf, base, syms, schars);
                found.0 == skipped && found.1 == chars
            }),
        decreases buf.len() - base - skipped,
    {
        if let Some((idx, len)) = _look_for_symbols(reader, symbols, 0) {
            proof {
                lemma_first_match_props(buf, base + skipped, syms);
                assert(spec_scan_while(buf, base + skipped, syms, schars) == {
                    let tail = spec_scan_while(buf, base + skipped + len, syms, schars);
                    (len + tail.0, schars[idx as int] + tail.1)
                });
            }
            let n = reader.skip(len);
            skipped += n;
            chars += symbols[idx].len_chars();
        } else {
            proof {
                assert(spec_scan_while(buf, base + skipped, syms, schars) == (0int, 0int));
            }
            break ;
        }
    }
    (skipped, chars)
}

/// The first opener or closer of `opens`/`closes`, from index `i` on, that
/// occurs in `buf` at position `at`; openers are tried before closers.
pub open spec fn first_brace_from(
    buf: Seq<u8>,
    at: int,
    opens: Seq<Seq<u8>>,
    closes: Seq<Seq<u8>>,
    i: int,
) -> Option<(int, bool)>
    decreases opens.len() - i,
{
    if i < 0 || i >= opens.len() {
        None
    } else if sym_matches_at(buf, at, opens[i]) {
        Some((i, true))
    } else if i < closes.len() && sym_matches_at(buf, at, closes[i]) {
        Some((i, false))
    } else {
        first_brace_from(buf, at, opens, closes, i + 1)
    }
}

/// The first opener or closer that occurs in `buf` at position `at`.
pub open spec fn first_brace(
    buf: Seq<u8>,
    at: int,
    opens: Seq<Seq<u8>>,
    closes: Seq<Seq<u8>>,
) -> Option<(int, bool)> {
    first_brace_from(buf, at, opens, closes, 0)
}

/// A first brace match names a pattern that indeed occurs at the position.
pub proof fn lemma_first_brace_from_props(
    buf: Seq<u8>,
    at: int,
    opens: Seq<Seq<u8>>,
    closes: Seq<Seq<u8>>,
    k: int,
)
    requires
        0 <= k,
    ensures
        match first_brace_from(buf, at, opens, closes, k) {
            Some((i, is_open)) => k <= i < opens.len() && if is_open {
                sym_matches_at(buf, at, opens[i])
            } else {
                i < closes.len() && sym_matches_at(buf, at, closes[i])
            },
            None => true,
        },
    decreases opens.len() - k,
{
    if k < opens.len() && !sym_matches_at(buf, at, opens[k]) && !(k < closes.len()
        && sym_matches_at(buf, at, closes[k])) {
        lemma_first_brace_from_props(buf, at, opens, closes, k + 1);
    }
}

/// The scanner's per-call configuration, as the byte patterns and rules of
/// its four lists.
pub struct ScanCfg {
    pub stop_rules: Seq<Stop>,
    pub stop_syms: Seq<Seq<u8>>,
    pub escapes: Seq<Seq<u8>>,
    pub quote_rules: Seq<Quote>,
    pub quote_syms: Seq<Seq<u8>>,
    pub brace_rules: Seq<Brace>,
    pub brace_opens: Seq<Seq<u8>>,
    pub brace_closes: Seq<Seq<u8>>,
}

/// The configuration a call hands the engine, read off the rule lists.
pub open spec fn scan_cfg<SS: Symbol, ES: Symbol, QS: Symbol, BO: Symbol, BC: Symbol>(
    stops: Seq<(Stop, SS)>,
    escapes: Seq<ES>,
    quotes: Seq<(Quote, QS)>,
    braces: Seq<(Brace, (BO, BC))>,
) -> ScanCfg {
    ScanCfg {
        stop_rules: stops.map_values(|p: (Stop, SS)| p.0),
        stop_syms: stops.map_values(|p: (Stop, SS)| p.1.bytes()),
        escapes: escapes.map_values(|s: ES| s.bytes()),
        quote_rules: quotes.map_values(|p: (Quote, QS)| p.0),
        quote_syms: quotes.map_values(|p: (Quote, QS)| p.1.bytes()),
        brace_rules: braces.map_values(|p: (Brace, (BO, BC))| p.0),
        brace_opens: braces.map_values(|p: (Brace, (BO, BC))| p.1.0.bytes()),
        brace_closes: braces.map_values(|p: (Brace, (BO, BC))| p.1.1.bytes()),
    }
}

/// The engine's state between loop iterations.
pub struct ScanState {
    /// The scanner-local read offset past the reader's cursor.
    pub pos: int,
    /// The most recent stop candidate.
    pub stop_idx: int,
    /// The byte length of the recorded consecutive stop run.
    pub stop_len: int,
    /// Latched once a greedy stop has matched.
    pub greedy: bool,
    /// Whether a quoted region is open.
    pub quote_on: bool,
    /// Which quote rule opened the region.
    pub quote_idx: int,
    /// Whether an escape is armed.
    pub esc_on: bool,
    /// Ages the escape so it covers exactly the next classification.
    pub esc_age: int,
    /// One nesting counter per brace rule.
    pub depths: Seq<int>,
}

/// The engine's state on entry: everything cleared, one zero per brace rule.
pub open spec fn scan_init(n_braces: nat) -> ScanState {
    ScanState {
        pos: 0,
        stop_idx: 0,
        stop_len: 0,
        greedy: false,
        quote_on: false,
        quote_idx: 0,
        esc_on: false,
        esc_age: 0,
        depths: Seq::new(n_braces, |i: int| 0int),
    }
}

/// Age the escape flag: it stays armed for exactly one further iteration.
pub open spec fn scan_age(st: ScanState) -> ScanState {
    if st.esc_on && st.esc_age == 0 {
        ScanState { esc_age: 1, ..st }
    } else {
        ScanState { esc_on: false, esc_age: 0, ..st }
    }
}

/// Whether some brace region that suppresses stops is open.
pub open spec fn any_escaping_depth(rules: Seq<Brace>, depths: Seq<int>) -> bool {
    exists|i: int| 0 <= i < rules.len() && depths[i] > 0 && rules[i].escapes_stop
}

/// One engine iteration either keeps going or halts the scan.
pub enum ScanStep {
    Go(ScanState),
    Halt(ScanState),
}

/// One iteration of the engine at state `st0`, on a buffer whose cursor
/// stands at `base`: stops are tried first, then escapes, quotes and braces;
/// an unclassified byte falls through.
pub open spec fn scan_body(cfg: ScanCfg, buf: Seq<u8>, base: int, st0: ScanState) -> ScanStep {
    let st = scan_age(st0);
    let at = base + st.pos;
    match first_match(buf, at, cfg.stop_syms) {
        Some(idx) => {
            let len = cfg.stop_syms[idx].len() as int;
            let stp = ScanState { pos: st.pos + len, ..st };
            if stp.esc_on && cfg.stop_rules[idx].escaped {
                ScanStep::Go(ScanState { esc_on: false, esc_age: 0, ..stp })
            } else if stp.quote_on && cfg.stop_rules[idx].quoted
                && cfg.quote_rules[stp.quote_idx].escapes_stop {
                ScanStep::Go(stp)
            } else if any_escaping_depth(cfg.brace_rules, stp.depths) {
                ScanStep::Go(stp)
            } else {
                let st2 = ScanState { stop_idx: idx, stop_len: stp.stop_len + len, ..stp };
                if cfg.stop_rules[idx].greedy {
                    ScanStep::Go(ScanState { greedy: true, ..st2 })
                } else {
                    ScanStep::Halt(st2)
                }
            }
        },
        None => {
            if st.greedy {
                ScanStep::Halt(st)
            } else {
                let st = ScanState { stop_len: 0, ..st };
                match first_match(buf, at, cfg.escapes) {
                    Some(idx) => ScanStep::Go(
                        ScanState {
                            pos: st.pos + cfg.escapes[idx].len(),
                            esc_on: !st.esc_on,
                            esc_age: 0,
                            ..st
                        },
                    ),
                    None => match first_match(buf, at, cfg.quote_syms) {
                        Some(idx) => {
                            let len = cfg.quote_syms[idx].len() as int;
                            let stq = ScanState { pos: st.pos + len, ..st };
                            if stq.esc_on && cfg.quote_rules[idx].escaped {
                                ScanStep::Go(ScanState { esc_on: false, esc_age: 0, ..stq })
                            } else if !stq.quote_on {
                                ScanStep::Go(ScanState { quote_on: true, quote_idx: idx, ..stq })
                            } else if stq.quote_idx == idx {
                                let st2 = ScanState { quote_on: false, ..stq };
                                if cfg.quote_rules[idx].is_stop {
                                    if any_escaping_depth(cfg.brace_rules, st2.depths) {
                                        ScanStep::Go(st2)
                                    } else if cfg.quote_rules[idx].greedy && sym_matches_at(
                                        buf,
                                        base + st2.pos,
                                        cfg.quote_syms[idx],
                                    ) {
                                        ScanStep::Go(
                                            ScanState {
                                                pos: st2.pos + len,
                                                quote_on: true,
                                                quote_idx: idx,
                                                ..st2
                                            },
                                        )
                                    } else {
                                        ScanStep::Halt(st2)
                                    }
                                } else {
                                    ScanStep::Go(st2)
                                }
                            } else {
                                ScanStep::Go(stq)
                            }
                        },
                        None => match first_brace(buf, at, cfg.brace_opens, cfg.brace_closes) {
                            Some((idx, is_open)) => {
                                let len = if is_open {
                                    cfg.brace_opens[idx].len() as int
                                } else {
                                    cfg.brace_closes[idx].len() as int
                                };
                                let stb = ScanState { pos: st.pos + len, ..st };
                                if stb.esc_on && cfg.brace_rules[idx].escaped {
                                    ScanStep::Go(ScanState { esc_on: false, esc_age: 0, ..stb })
                                } else if stb.quote_on && cfg.brace_rules[idx].quoted {
                                    ScanStep::Go(stb)
                                } else if is_open {
                                    ScanStep::Go(
                                        ScanState {
                                            depths: stb.depths.update(idx, stb.depths[idx] + 1),
                                            ..stb
                                        },
                                    )
                                } else {
                                    let nd = if stb.depths[idx] > 0 {
                                        stb.depths.update(idx, stb.depths[idx] - 1)
                                    } else {
                                        stb.depths
                                    };
                                    let st2 = ScanState { depths: nd, ..stb };
                                    if st2.depths[idx] == 0 && cfg.brace_rules[idx].is_stop
                                        && !any_escaping_depth(cfg.brace_rules, st2.depths) {
                                        ScanStep::Halt(st2)
                                    } else {
                                        ScanStep::Go(st2)
                                    }
                                }
                            },
                            None => ScanStep::Go(ScanState { pos: st.pos + 1, ..st }),
                        },
                    },
                }
            }
        },
    }
}

/// Run the engine until the input runs out or an iteration halts.
pub open spec fn scan_loop(cfg: ScanCfg, buf: Seq<u8>, base: int, st: ScanState) -> ScanState
    decreases buf.len() - base - st.pos,
{
    if base + st.pos + 1 > buf.len() {
        st
    } else {
        match scan_body(cfg, buf, base, st) {
            ScanStep::Halt(st2) => st2,
            ScanStep::Go(st2) => {
                if st2.pos > st.pos && base + st2.pos <= buf.len() {
                    scan_loop(cfg, buf, base, st2)
                } else {
                    st2
                }
            },
        }
    }
}

/// One engine iteration keeps the recorded stop run inside the scanned
/// span and the span inside the input.
proof fn lemma_scan_body_bounds(cfg: ScanCfg, buf: Seq<u8>, base: int, st: ScanState)
    requires
        0 <= base,
        base + st.pos + 1 <= buf.len(),
        0 <= st.stop_len <= st.pos,
    ensures
        ({
            let st2 = match scan_body(cfg, buf, base, st) {
                ScanStep::Go(s) => s,
                ScanStep::Halt(s) => s,
            };
            0 <= st2.stop_len <= st2.pos && base + st2.pos <= buf.len()
        }),
{
    let a = scan_age(st);
    lemma_first_match_props(buf, base + a.pos, cfg.stop_syms);
    lemma_first_match_props(buf, base + a.pos, cfg.escapes);
    lemma_first_match_props(buf, base + a.pos, cfg.quote_syms);
    lemma_first_brace_from_props(buf, base + a.pos, cfg.brace_opens, cfg.brace_closes, 0);
}

/// Whatever the rule lists, a scan's content length never exceeds its
/// consumed length, and the consumed length never exceeds the bytes that
/// remained at entry: the states `scan_loop` reaches from a state whose
/// recorded stop run fits its span keep that shape.
pub proof fn lemma_scan_loop_bounds(cfg: ScanCfg, buf: Seq<u8>, base: int, st: ScanState)
    requires
        0 <= base,
        base + st.pos <= buf.len(),
        0 <= st.stop_len <= st.pos,
    ensures
        ({
            let fst = scan_loop(cfg, buf, base, st);
            0 <= fst.stop_len <= fst.pos && base + fst.pos <= buf.len()
        }),
    decreases buf.len() - base - st.pos,
{
    if base + st.pos + 1 <= buf.len() {
        lemma_scan_body_bounds(cfg, buf, base, st);
        match scan_body(cfg, buf, base, st) {
            ScanStep::Halt(st2) => {
            },
            ScanStep::Go(st2) => {
                if st2.pos > st.pos && base + st2.pos <= buf.len() {
                    lemma_scan_loop_bounds(cfg, buf, base, st2);
                }
            },
        }
    }
}

/// An iteration that keeps going leads to the same final state.
proof fn lemma_step_go(cfg: ScanCfg, buf: Seq<u8>, base: int, st: ScanState, st2: ScanState)
    requires
        base + st.pos + 1 <= buf.len(),
        scan_body(cfg, buf, base, st) == ScanStep::Go(st2),
        st2.pos > st.pos,
        base + st2.pos <= buf.len(),
    ensures
        scan_loop(cfg, buf, base, st) == scan_loop(cfg, buf, base, st2),
{
}

/// An iteration that halts fixes the final state.
proof fn lemma_step_halt(cfg: ScanCfg, buf: Seq<u8>, base: int, st: ScanState, st2: ScanState)
    requires
        base + st.pos + 1 <= buf.len(),
        scan_body(cfg, buf, base, st) == ScanStep::Halt(st2),
    ensures
        scan_loop(cfg, buf, base, st) == st2,
{
}

/// Find the first stop symbol that occurs at offset `offset` past the cursor.
fn _look_for_stop<R: Read, S: Symbol>(reader: &mut R, stops: &[(Stop, S)], offset: usize) -> (r:
    Option<(usize, usize)>)
    ensures
        *final(reader) == *old(reader),
        match r {
            Some((idx, len)) => {
                &&& first_match(
                    old(reader).content(),
                    old(reader).pos() + offset,
                    stops@.map_values(|p: (Stop, S)| p.1.bytes()),
                ) == Some(idx as int)
                &&& idx < stops@.len()
                &&& len == stops@[idx as int].1.bytes().len()
            },
            None => first_match(
                old(reader).content(),
                old(reader).pos() + offset,
                stops@.map_values(|p: (Stop, S)| p.1.bytes()),
            ) is None,
        },
{
    let ghost buf = old(reader).content();
    let ghost at = old(reader).pos() + offset;
    let ghost syms = stops@.map_values(|p: (Stop, S)| p.1.bytes());
    let n = stops.len();
    let mut idx: usize = 0;
    while idx < n
        invariant
            *reader == *old(reader),
            n == stops@.len(),
            syms == stops@.map_values(|p: (Stop, S)| p.1.bytes()),
            buf == old(reader).content(),
            at == old(reader).pos() + offset,
            idx <= n,
            first_match(buf, at, syms) == first_match_from(buf, at, syms, idx as int),
        decreases n - idx,
    {
        if reader.contains_at(&stops[idx].1, offset) {
            return Some((idx, stops[idx].1.len()));
        }
        proof {
            assert(first_match_from(buf, at, syms, idx as int) == first_match_from(
                buf,
                at,
                syms,
                idx + 1,
            ));
        }
        idx += 1;
    }
    None
}

/// Find the first quote symbol that occurs at offset `offset` past the cursor.
fn _look_for_quote<R: Read, S: Symbol>(reader: &mut R, quotes: &[(Quote, S)], offset: usize) -> (r:
    Option<(usize, usize)>)
    ensures
        *final(reader) == *old(reader),
        match r {
            Some((idx, len)) => {
                &&& first_match(
                    old(reader).content(),
                    old(reader).pos() + offset,
                    quotes@.map_values(|p: (Quote, S)| p.1.bytes()),
                ) == Some(idx as int)
                &&& idx < quotes@.len()
                &&& len == quotes@[idx as int].1.bytes().len()
            },
            None => first_match(
                old(reader).content(),
                old(reader).pos() + offset,
                quotes@.map_values(|p: (Quote, S)| p.1.bytes()),
            ) is None,
        },
{
    let ghost buf = old(reader).content();
    let ghost at = old(reader).pos() + offset;
    let ghost syms = quotes@.map_values(|p: (Quote, S)| p.1.bytes());
    let n = quotes.len();
    let mut idx: usize = 0;
    while idx < n
        invariant
            *reader == *old(reader),
            n == quotes@.len(),
            syms == quotes@.map_values(|p: (Quote, S)| p.1.bytes()),
            buf == old(reader).content(),
            at == old(reader).pos() + offset,
            idx <= n,
            first_match(buf, at, syms) == first_match_from(buf, at, syms, idx as int),
        decreases n - idx,
    {
        if reader.contains_at(&quotes[idx].1, offset) {
            return Some((idx, quotes[idx].1.len()));
        }
        proof {
            assert(first_match_from(buf, at, syms, idx as int) == first_match_from(
                buf,
                at,
                syms,
                idx + 1,
            ));
        }
        idx += 1;
    }
    None
}

/// Find the first brace opener or closer that occurs at offset `offset` past
/// the cursor; per rule, the opener is tried first.
fn _look_for_braces<R: Read, BO: Symbol, BC: Symbol>(
    reader: &mut R,
    braces: &[(Brace, (BO, BC))],
    offset: usize,
) -> (r: Option<(usize, bool, usize)>)
    ensures
        *final(reader) == *old(reader),
        match r {
            Some((idx, is_open, len)) => {
                &&& first_brace(
                    old(reader).content(),
                    old(reader).pos() + offset,
                    braces@.map_values(|p: (Brace, (BO, BC))| p.1.0.bytes()),
                    braces@.map_values(|p: (Brace, (BO, BC))| p.1.1.bytes()),
                ) == Some((idx as int, is_open))
                &&& idx < braces@.len()
                &&& len == if is_open {
                    braces@[idx as int].1.0.bytes().len()
                } else {
                    braces@[idx as int].1.1.bytes().len()
                }
            },
            None => first_brace(
                old(reader).content(),
                old(reader).pos() + offset,
                braces@.map_values(|p: (Brace, (BO, BC))| p.1.0.bytes()),
                braces@.map_values(|p: (Brace, (BO, BC))| p.1.1.bytes()),
            ) is None,
        },
{
    let ghost buf = old(reader).content();
    let ghost at = old(reader).pos() + offset;
    let ghost opens = braces@.map_values(|p: (Brace, (BO, BC))| p.1.0.bytes());
    let ghost closes = braces@.map_values(|p: (Brace, (BO, BC))| p.1.1.bytes());
    let n = braces.len();
    let mut idx: usize = 0;
    while idx < n
        invariant
            *reader == *old(reader),
            n == braces@.len(),
            opens == braces@.map_values(|p: (Brace, (BO, BC))| p.1.0.bytes()),
            closes == braces@.map_values(|p: (Brace, (BO, BC))| p.1.1.bytes()),
            buf == old(reader).content(),
            at == old(reader).pos() + offset,
            idx <= n,
            first_brace(buf, at, opens, closes) == first_brace_from(
                buf,
                at,
                opens,
                closes,
                idx as int,
            ),
        decreases n - idx,
    {
        if reader.contains_at(&braces[idx].1.0, offset) {
            return Some((idx, true, braces[idx].1.0.len()));
        }
        if reader.contains_at(&braces[idx].1.1, offset) {
            return Some((idx, false, braces[idx].1.1.len()));
        }
        proof {
            assert(first_brace_from(buf, at, opens, closes, idx as int) == first_brace_from(
                buf,
                at,
                opens,
                closes,
                idx + 1,
            ));
        }
        idx += 1;
    }
    None
}

/// Whether some open brace region suppresses stops right now.
fn _any_escaping<BO: Symbol, BC: Symbol>(
    braces: &[(Brace, (BO, BC))],
    counters: &Vec<usize>,
) -> (r: bool)
    requires
        counters@.len() == braces@.len(),
    ensures
        r == any_escaping_depth(
            braces@.map_values(|p: (Brace, (BO, BC))| p.0),
            counters@.map_values(|d: usize| d as int),
        ),
{
    let ghost rules = braces@.map_values(|p: (Brace, (BO, BC))| p.0);
    let ghost depths = counters@.map_values(|d: usize| d as int);
    let n = counters.len();
    let mut bidx: usize = 0;
    while bidx < n
        invariant
            n == counters@.len() == braces@.len(),
            rules == braces@.map_values(|p: (Brace, (BO, BC))| p.0),
            depths == counters@.map_values(|d: usize| d as int),
            bidx <= n,
            forall|j: int| 0 <= j < bidx ==> !(depths[j] > 0 && rules[j].escapes_stop),
        decreases n - bidx,
    {
        if counters[bidx] > 0 && braces[bidx].0.escapes_stop {
            proof {
                assert(depths[bidx as int] > 0 && rules[bidx as int].escapes_stop);
            }
            return true;
        }
        bidx += 1;
    }
    proof {
        assert(!any_escaping_depth(rules, depths));
    }
    false
}

/// Scan from the reader's cursor until a stop condition is met, without
/// moving the cursor. Returns the content length and the consumed length:
/// the caller consumes the latter to move past the scanned region, and the
/// two differ only when the terminating stop run asked to be skipped.
///
/// One counter per brace rule must be supplied; all are reset on entry and
/// hold the final nesting depths on return.
#[verifier::rlimit(60)]
pub fn scan<Reader, StopSymbol, EscapeSymbol, QuoteSymbol, BraceOpenSymbol, BraceCloseSymbol>(
    reader: &mut Reader,
    stops: &[(Stop, StopSymbol)],
    escapes: &[EscapeSymbol],
    quotes: &[(Quote, QuoteSymbol)],
    braces: &[(Brace, (BraceOpenSymbol, BraceCloseSymbol))],
    braces_counters: &mut Vec<usize>,
) -> (r: Option<(usize, usize)>) where
    Reader: Read,
    StopSymbol: Symbol,
    EscapeSymbol: Symbol,
    QuoteSymbol: Symbol,
    BraceOpenSymbol: Symbol,
    BraceCloseSymbol: Symbol,

    requires
        old(reader).wf(),
        old(braces_counters)@.len() == braces@.len(),
        forall|i: int| 0 <= i < stops@.len() ==> (#[trigger] stops@[i]).1.bytes().len() >= 1,
        forall|i: int| 0 <= i < escapes@.len() ==> (#[trigger] escapes@[i]).bytes().len() >= 1,
        forall|i: int| 0 <= i < quotes@.len() ==> (#[trigger] quotes@[i]).1.bytes().len() >= 1,
        forall|i: int|
            0 <= i < braces@.len() ==> (#[trigger] braces@[i]).1.0.bytes().len() >= 1
                && braces@[i].1.1.bytes().len() >= 1,
    ensures
        *final(reader) == *old(reader),
        ({
            let cfg = scan_cfg(stops@, escapes@, quotes@, braces@);
            let fst = scan_loop(
                cfg,
                old(reader).content(),
                old(reader).pos(),
                scan_init(braces@.len() as nat),
            );
            let result = if fst.stop_len > 0 && cfg.stop_rules[fst.stop_idx].skip {
                fst.pos - fst.stop_len
            } else {
                fst.pos
            };
            &&& r == Some((result as usize, fst.pos as usize))
            &&& 0 <= result <= fst.pos <= old(reader).content().len() - old(reader).pos()
            &&& final(braces_counters)@.map_values(|d: usize| d as int) == fst.depths
        }),
{
    let ghost cfg = scan_cfg(stops@, escapes@, quotes@, braces@);
    let ghost buf = old(reader).content();
    let ghost base = old(reader).pos();
    proof {
        old(reader).lemma_wf();
    }

    let mut quote_flag = false;
    let mut quote_index: usize = 0;
    let mut escape_flag = false;
    let mut escape_loop: usize = 0;
    let mut read_pos: usize = 0;
    let mut stop_idx: usize = 0;
    let mut stop_len: usize = 0;
    let mut greedy_mode = false;

    let nb = braces.len();
    let mut bi: usize = 0;
    while bi < nb
        invariant
            nb == braces@.len(),
            braces_counters@.len() == braces@.len(),
            bi <= nb,
            forall|j: int| 0 <= j < bi ==> braces_counters@[j] == 0,
        decreases nb - bi,
    {
        let slot = vstd::std_specs::vec::vec_index_mut(braces_counters, bi);
        *slot = 0;
        bi += 1;
    }

    let ghost mut gst = scan_init(braces@.len() as nat);
    proof {
        assert(braces_counters@.map_values(|d: usize| d as int) =~= gst.depths);
    }

    loop
        invariant_except_break
            scan_loop(cfg, buf, base, gst) == scan_loop(
                cfg,
                buf,
                base,
                scan_init(braces@.len() as nat),
            ),
        invariant
            *reader == *old(reader),
            cfg == scan_cfg(stops@, escapes@, quotes@, braces@),
            buf == old(reader).content(),
            base == old(reader).pos(),
            0 <= base,
            base <= buf.len() <= usize::MAX,
            forall|i: int| 0 <= i < stops@.len() ==> (#[trigger] stops@[i]).1.bytes().len() >= 1,
            forall|i: int| 0 <= i < escapes@.len() ==> (#[trigger] escapes@[i]).bytes().len() >= 1,
            forall|i: int| 0 <= i < quotes@.len() ==> (#[trigger] quotes@[i]).1.bytes().len() >= 1,
            forall|i: int|
                0 <= i < braces@.len() ==> (#[trigger] braces@[i]).1.0.bytes().len() >= 1
                    && braces@[i].1.1.bytes().len() >= 1,
            read_pos == gst.pos,
            stop_idx == gst.stop_idx,
            stop_len == gst.stop_len,
            greedy_mode == gst.greedy,
            quote_flag == gst.quote_on,
            quote_index == gst.quote_idx,
            escape_flag == gst.esc_on,
            escape_loop == gst.esc_age,
            braces_counters@.len() == braces@.len(),
            braces_counters@.map_values(|d: usize| d as int) == gst.depths,
            gst.depths.len() == braces@.len(),
            base + read_pos <= buf.len(),
            stop_len <= read_pos,
            stop_len > 0 ==> stop_idx < stops@.len(),
            quote_flag ==> quote_index < quotes@.len(),
            forall|j: int| 0 <= j < braces@.len() ==> #[trigger] gst.depths[j] <= read_pos,
        ensures
            *reader == *old(reader),
            read_pos == gst.pos,
            stop_idx == gst.stop_idx,
            stop_len == gst.stop_len,
            base + read_pos <= buf.len(),
            stop_len <= read_pos,
            stop_len > 0 ==> stop_idx < stops@.len(),
            braces_counters@.map_values(|d: usize| d as int) == gst.depths,
            gst == scan_loop(cfg, buf, base, scan_init(braces@.len() as nat)),
        decreases buf.len() - base - read_pos,
    {
        if read_pos == usize::MAX {
            proof {
                assert(scan_loop(cfg, buf, base, gst) == gst);
            }
            break ;
        }
        if !reader.has(read_pos + 1) {
            proof {
                assert(scan_loop(cfg, buf, base, gst) == gst);
            }
            break ;
        }
        let ghost st_pre = gst;

        if escape_flag && escape_loop == 0 {
            escape_loop = 1;
        } else {
            escape_flag = false;
            escape_loop = 0;
        }
        proof {
            gst = scan_age(st_pre);
        }

        if let Some((idx, len)) = _look_for_stop(reader, stops, read_pos) {
            proof {
                lemma_first_match_props(buf, base + read_pos, cfg.stop_syms);
            }
            read_pos += len;
            proof {
                gst = ScanState { pos: gst.pos + len, ..gst };
            }
            if escape_flag && stops[idx].0.escaped {
                escape_flag = false;
                escape_loop = 0;
                proof {
                    gst = ScanState { esc_on: false, esc_age: 0, ..gst };
                    assert(scan_body(cfg, buf, base, st_pre) == ScanStep::Go(gst));
                    lemma_step_go(cfg, buf, base, st_pre, gst);
                }
                continue ;
            }
            if quote_flag && stops[idx].0.quoted && quotes[quote_index].0.escapes_stop {
                proof {
                    assert(scan_body(cfg, buf, base, st_pre) == ScanStep::Go(gst));
                    lemma_step_go(cfg, buf, base, st_pre, gst);
                }
                continue ;
            }
            let go_on = _any_escaping(braces, braces_counters);
            if go_on {
                proof {
                    assert(scan_body(cfg, buf, base, st_pre) == ScanStep::Go(gst));
                    lemma_step_go(cfg, buf, base, st_pre, gst);
                }
                continue ;
            }
            stop_idx = idx;
            stop_len += len;
            proof {
                gst = ScanState { stop_idx: idx as int, stop_len: gst.stop_len + len, ..gst };
            }
            if stops[idx].0.greedy {
                greedy_mode = true;
                proof {
                    gst = ScanState { greedy: true, ..gst };
                    assert(scan_body(cfg, buf, base, st_pre) == ScanStep::Go(gst));
                    lemma_step_go(cfg, buf, base, st_pre, gst);
                }
                continue ;
            }
            proof {
                assert(scan_body(cfg, buf, base, st_pre) == ScanStep::Halt(gst));
                lemma_step_halt(cfg, buf, base, st_pre, gst);
            }
            break ;
        }

        if greedy_mode {
            proof {
                assert(scan_body(cfg, buf, base, st_pre) == ScanStep::Halt(gst));
                lemma_step_halt(cfg, buf, base, st_pre, gst);
            }
            break ;
        }
        stop_len = 0;
        proof {
            gst = ScanState { stop_len: 0, ..gst };
        }

        if let Some((_eidx, len)) = _look_for_symbols(reader, escapes, read_pos) {
            proof {
                lemma_first_match_props(buf, base + read_pos, cfg.escapes);
            }
            read_pos += len;
            escape_flag = !escape_flag;
            escape_loop = 0;
            proof {
                gst = ScanState { pos: gst.pos + len, esc_on: !gst.esc_on, esc_age: 0, ..gst };
                assert(scan_body(cfg, buf, base, st_pre) == ScanStep::Go(gst));
                lemma_step_go(cfg, buf, base, st_pre, gst);
            }
            continue ;
        }

        if let Some((idx, len)) = _look_for_quote(reader, quotes, read_pos) {
            proof {
                lemma_first_match_props(buf, base + read_pos, cfg.quote_syms);
            }
            read_pos += len;
            proof {
                gst = ScanState { pos: gst.pos + len, ..gst };
            }
            if escape_flag && quotes[idx].0.escaped {
                escape_flag = false;
                escape_loop = 0;
                proof {
                    gst = ScanState { esc_on: false, esc_age: 0, ..gst };
                    assert(scan_body(cfg, buf, base, st_pre) == ScanStep::Go(gst));
                    lemma_step_go(cfg, buf, base, st_pre, gst);
                }
                continue ;
            } else if !quote_flag {
                quote_flag = true;
                quote_index = idx;
                proof {
                    gst = ScanState { quote_on: true, quote_idx: idx as int, ..gst };
                    assert(scan_body(cfg, buf, base, st_pre) == ScanStep::Go(gst));
                    lemma_step_go(cfg, buf, base, st_pre, gst);
                }
                continue ;
            } else if quote_index == idx {
                quote_flag = false;
                proof {
                    gst = ScanState { quote_on: false, ..gst };
                }
                if quotes[idx].0.is_stop {
                    let go_on = _any_escaping(braces, braces_counters);
                    if go_on {
                        proof {
                            assert(scan_body(cfg, buf, base, st_pre) == ScanStep::Go(gst));
                            lemma_step_go(cfg, buf, base, st_pre, gst);
                        }
                        continue ;
                    }
                    if quotes[idx].0.greedy {
                        if reader.contains_at(&quotes[idx].1, read_pos) {
                            read_pos += quotes[idx].1.len();
                            quote_flag = true;
                            quote_index = idx;
                            proof {
                                gst = ScanState {
                                    pos: gst.pos + len,
                                    quote_on: true,
                                    quote_idx: idx as int,
                                    ..gst
                                };
                                assert(scan_body(cfg, buf, base, st_pre) == ScanStep::Go(gst));
                                lemma_step_go(cfg, buf, base, st_pre, gst);
                            }
                            continue ;
                        }
                    }
                    proof {
                        assert(scan_body(cfg, buf, base, st_pre) == ScanStep::Halt(gst));
                        lemma_step_halt(cfg, buf, base, st_pre, gst);
                    }
                    break ;
                }
                proof {
                    assert(scan_body(cfg, buf, base, st_pre) == ScanStep::Go(gst));
                    lemma_step_go(cfg, buf, base, st_pre, gst);
                }
                continue ;
            } else {
                proof {
                    assert(scan_body(cfg, buf, base, st_pre) == ScanStep::Go(gst));
                    lemma_step_go(cfg, buf, base, st_pre, gst);
                }
                continue ;
            }
        }

        if let Some((idx, is_open_found, len)) = _look_for_braces(reader, braces, read_pos) {
            proof {
                lemma_first_brace_from_props(buf, base + read_pos, cfg.brace_opens, cfg.brace_closes, 0);
            }
            read_pos += len;
            proof {
                gst = ScanState { pos: gst.pos + len, ..gst };
            }
            if escape_flag && braces[idx].0.escaped {
                escape_flag = false;
                escape_loop = 0;
                proof {
                    gst = ScanState { esc_on: false, esc_age: 0, ..gst };
                    assert(scan_body(cfg, buf, base, st_pre) == ScanStep::Go(gst));
                    lemma_step_go(cfg, buf, base, st_pre, gst);
                }
                continue ;
            } else if quote_flag && braces[idx].0.quoted {
                proof {
                    assert(scan_body(cfg, buf, base, st_pre) == ScanStep::Go(gst));
                    lemma_step_go(cfg, buf, base, st_pre, gst);
                }
                continue ;
            } else if is_open_found {
                let cur = braces_counters[idx];
                let slot = vstd::std_specs::vec::vec_index_mut(braces_counters, idx);
                *slot = cur + 1;
                proof {
                    gst = ScanState {
                        depths: gst.depths.update(idx as int, gst.depths[idx as int] + 1),
                        ..gst
                    };
                    assert(braces_counters@.map_values(|d: usize| d as int) =~= gst.depths);
                    assert(scan_body(cfg, buf, base, st_pre) == ScanStep::Go(gst));
                    lemma_step_go(cfg, buf, base, st_pre, gst);
                }
                continue ;
            } else {
                let cur = braces_counters[idx];
                if cur > 0 {
                    let slot = vstd::std_specs::vec::vec_index_mut(braces_counters, idx);
                    *slot = cur - 1;
                    proof {
                        gst = ScanState {
                            depths: gst.depths.update(idx as int, gst.depths[idx as int] - 1),
                            ..gst
                        };
                        assert(braces_counters@.map_values(|d: usize| d as int) =~= gst.depths);
                    }
                }
                if braces[idx].0.is_stop {
                    let now_zero = braces_counters[idx] == 0;
                    let go_on = _any_escaping(braces, braces_counters);
                    if now_zero && !go_on {
                        proof {
                            assert(scan_body(cfg, buf, base, st_pre) == ScanStep::Halt(gst));
                            lemma_step_halt(cfg, buf, base, st_pre, gst);
                        }
                        break ;
                    }
                }
                proof {
                    assert(scan_body(cfg, buf, base, st_pre) == ScanStep::Go(gst));
                    lemma_step_go(cfg, buf, base, st_pre, gst);
                }
                continue ;
            }
        }

        read_pos += 1;
        proof {
            gst = ScanState { pos: gst.pos + 1, ..gst };
            assert(scan_body(cfg, buf, base, st_pre) == ScanStep::Go(gst));
            lemma_step_go(cfg, buf, base, st_pre, gst);
        }
    }

    let result_length = if stop_len > 0 {
        if stops[stop_idx].0.skip {
            read_pos - stop_len
        } else {
            read_pos
        }
    } else {
        read_pos
    };

    Some((result_length, read_pos))
}

/// Skipping until a symbol is scanning until it and then skipping the
/// scanned count: the count never exceeds what remains past `from`, so a
/// clamping skip of that count lands the cursor exactly where the scan
/// stopped, and both calls report the same result.
pub proof fn lemma_skip_until_is_scan_until_then_skip(
    buf: Seq<u8>,
    from: int,
    syms: Seq<Seq<u8>>,
)
    requires
        0 <= from <= buf.len(),
    ensures
        ({
            let (n, f) = spec_scan_until(buf, from, syms);
            &&& 0 <= n <= buf.len() - from
            &&& clamped(n, buf.len() - from) == n
        }),
    decreases buf.len() - from,
{
    if from + 1 <= buf.len() && first_match(buf, from, syms) is None {
        lemma_skip_until_is_scan_until_then_skip(buf, from + 1, syms);
    }
}

/// Where a symbol matches, the reader's slice of the same window holds
/// exactly the symbol's bytes.
pub proof fn lemma_match_is_slice(buf: Seq<u8>, at: int, pat: Seq<u8>)
    requires
        sym_matches_at(buf, at, pat),
    ensures
        at + pat.len() <= buf.len(),
        buf.subrange(at, at + pat.len()) == pat,
{
}

} // verus!
