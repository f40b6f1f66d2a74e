//! Words, word-aligned address ranges and memory snapshots.

use std::collections::HashMap;
use vstd::prelude::*;

verus! {

broadcast use vstd::std_specs::hash::group_hash_axioms;

/// Size in bytes of a scanned word; every block is aligned to it.
pub const WORD: u64 = 8;

/// The word that a memory snapshot holds at `addr`: an address that the
/// snapshot does not cover reads as zero, which is never a block's base.
pub open spec fn word_at(mem: Map<u64, u64>, addr: u64) -> u64 {
    if mem.contains_key(addr) {
        mem[addr]
    } else {
        0
    }
}

/// `addr` is the address of an aligned word that lies wholly in `[low, high)`.
pub open spec fn is_word_in(low: int, high: int, addr: int) -> bool {
    &&& addr % 8 == 0
    &&& low <= addr
    &&& addr + 8 <= high
}

/// The values held by the aligned words of `[low, high)`.
pub open spec fn range_words(mem: Map<u64, u64>, low: int, high: int) -> Set<u64> {
    Set::new(|v: u64| exists|a: u64| is_word_in(low, high, a as int) && word_at(mem, a) == v)
}

/// The smaller of two addresses.
pub open spec fn lower(a: u64, b: u64) -> u64 {
    if a <= b {
        a
    } else {
        b
    }
}

/// The larger of two addresses.
pub open spec fn upper(a: u64, b: u64) -> u64 {
    if a <= b {
        b
    } else {
        a
    }
}

/// A run of `count` aligned words starting at address `first`.
#[derive(Clone, Copy, PartialEq, Eq, Structural, Debug)]
pub struct WordSpan {
    pub first: u64,
    pub count: u64,
}

impl WordSpan {
    /// Address of the `i`-th word of the span.
    pub open spec fn addr(self, i: int) -> int {
        self.first + 8 * i
    }

    /// The span lists exactly the aligned words of `[low, high)`, in
    /// ascending order.
    pub open spec fn covers(self, low: int, high: int) -> bool {
        &&& forall|i: int| 0 <= i < self.count ==> is_word_in(low, high, #[trigger] self.addr(i))
        &&& forall|a: int|
            is_word_in(low, high, a) ==> 0 <= #[trigger] self.index_of(a) < self.count && self.addr(
                self.index_of(a),
            ) == a
    }

    /// Position in the span of the word at address `a`.
    pub open spec fn index_of(self, a: int) -> int {
        (a - self.first) / 8
    }
}

/// The values held by the first `n` words of a span.
pub open spec fn span_words(mem: Map<u64, u64>, span: WordSpan, n: int) -> Set<u64> {
    Set::new(|v: u64| exists|j: int| 0 <= j < n && word_at(mem, #[trigger] span.addr(j) as u64) == v)
}

/// The words of a span that covers a range hold the values of that range.
pub proof fn lemma_span_words_cover(mem: Map<u64, u64>, span: WordSpan, low: int, high: int)
    requires
        span.covers(low, high),
        0 <= low,
        high <= u64::MAX,
    ensures
        span_words(mem, span, span.count as int) == range_words(mem, low, high),
{
    let all = span_words(mem, span, span.count as int);
    let range = range_words(mem, low, high);
    assert forall|v: u64| range.contains(v) implies all.contains(v) by {
        let a = choose|a: u64| is_word_in(low, high, a as int) && word_at(mem, a) == v;
        assert(span.addr(span.index_of(a as int)) == a);
    }
}

/// The address `a` is that of a word of one of the spans.
pub open spec fn in_spans(spans: Seq<WordSpan>, a: int) -> bool {
    exists|k: int, i: int|
        0 <= k < spans.len() && 0 <= i < spans[k].count && #[trigger] spans[k].addr(i) == a
}

/// Reads one word from a memory snapshot.
pub fn read_word(memory: &HashMap<u64, u64>, addr: u64) -> (w: u64)
    ensures
        w == word_at(memory@, addr),
{
    match memory.get(&addr) {
        Some(w) => *w,
        None => 0,
    }
}

/// Orders the two ends of a range of addresses.  A stack is scanned between
/// its two ends whichever way it grows.
pub fn order_ends(start: u64, end: u64) -> (range: (u64, u64))
    ensures
        range.0 == lower(start, end),
        range.1 == upper(start, end),
{
    if start <= end {
        (start, end)
    } else {
        (end, start)
    }
}

/// The aligned words of `[low, high)`: the first one starts at `low` rounded
/// up to a word boundary, and a trailing piece shorter than a word is left
/// out.  Where the range holds no whole aligned word, as when `high <= low`,
/// the span is empty and starts at zero.
pub fn word_span(low: u64, high: u64) -> (span: WordSpan)
    ensures
        span.covers(low as int, high as int),
        span.first + 8 * span.count <= u64::MAX,
        span.count > 0 ==> span.first % 8 == 0 && low <= span.first < low + 8,
        span.count == 0 ==> span.first == 0,
{
    let rem: u64 = low % WORD;
    let pad: u64 = if rem == 0 {
        0
    } else {
        WORD - rem
    };
    if high <= low || high - low < pad + WORD {
        return WordSpan { first: 0, count: 0 };
    }
    let first: u64 = low + pad;
    WordSpan { first, count: (high - first) / WORD }
}

} // verus!
