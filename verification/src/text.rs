//! The text fill primitive: given a measured text, a byte offset and a
//! width budget, find the furthest word-aligned cut that fits, the width it
//! occupies and its line height.
//!
//! Text shaping is an external service. Its output is modelled by
//! [`MeasuredText`]: the text's bytes together with a word-boundary
//! segmentation in source order, each word carrying the advance width and
//! line height that the shaper reported for it. Bytes between words are the
//! inter-word whitespace.

use crate::geometry::{MAX_ACC, MAX_DIM};
use vstd::prelude::*;

verus! {

/// Texts handled by the engine are kept within this many bytes, so that
/// per-line height sums stay within an `i64`.
pub const MAX_TEXT: usize = 0x1000_0000;

/// One word of a measured text: the byte range it occupies in the text and
/// the metrics the shaping service reported for it.
#[derive(Clone, Copy, PartialEq, Eq, Structural, Debug)]
pub struct MeasuredWord {
    pub start: usize,
    pub end: usize,
    /// Accumulated glyph advances of the word, in logical units.
    pub width: i64,
    /// Line height of the word's glyph run (ascent minus descent), in
    /// logical units.
    pub height: i64,
}

/// A text together with the shaping service's measurement of it.
#[derive(Clone, Debug)]
pub struct MeasuredText {
    pub text: Vec<u8>,
    pub words: Vec<MeasuredWord>,
}

/// The words are in source order, non-empty, pairwise disjoint, within the
/// text, and carry bounded non-negative metrics.
pub open spec fn words_wf(ws: Seq<MeasuredWord>, len: int) -> bool {
    &&& forall|i: int| 0 <= i < ws.len() ==> (#[trigger] ws[i]).start < ws[i].end <= len
    &&& forall|i: int| 0 < i < ws.len() ==> (#[trigger] ws[i]).start >= ws[i - 1].end
    &&& forall|i: int| 0 <= i < ws.len() ==> 0 <= (#[trigger] ws[i]).width <= MAX_DIM
    &&& forall|i: int| 0 <= i < ws.len() ==> 0 <= (#[trigger] ws[i]).height <= MAX_DIM
}

impl MeasuredText {
    pub open spec fn wf(self) -> bool {
        &&& words_wf(self.words@, self.text@.len() as int)
        &&& self.text@.len() <= MAX_TEXT
    }
}

/// A pending text child: raw measured text, its text size, and the width
/// budget of the context it was produced in.
#[derive(Clone, Debug)]
pub struct TextLayoutInfo {
    pub text: MeasuredText,
    pub size: i64,
    pub max_width: i64,
}

impl TextLayoutInfo {
    pub open spec fn wf(self) -> bool {
        &&& self.text.wf()
        &&& 0 < self.size <= MAX_DIM
        &&& -MAX_ACC <= self.max_width <= MAX_ACC
    }
}

pub open spec fn imax(a: int, b: int) -> int {
    if a >= b {
        a
    } else {
        b
    }
}

/// Index of the first word that ends after `offset` (scanning from `k`), or
/// `ws.len()` if none does.
pub open spec fn next_word(ws: Seq<MeasuredWord>, offset: int, k: int) -> int
    decreases ws.len() - k,
{
    if k < 0 || k >= ws.len() {
        ws.len() as int
    } else if ws[k].end > offset {
        k
    } else {
        next_word(ws, offset, k + 1)
    }
}

pub proof fn lemma_next_word(ws: Seq<MeasuredWord>, offset: int, k: int)
    requires
        0 <= k <= ws.len(),
    ensures
        k <= next_word(ws, offset, k) <= ws.len(),
        next_word(ws, offset, k) < ws.len() ==> ws[next_word(ws, offset, k)].end > offset,
        forall|j: int| k <= j < next_word(ws, offset, k) ==> (#[trigger] ws[j]).end <= offset,
    decreases ws.len() - k,
{
    if k < ws.len() && ws[k].end <= offset {
        lemma_next_word(ws, offset, k + 1);
    }
}

/// Total advance width of the words consumed by a greedy fill from word `k`
/// against `budget`.
pub open spec fn fill_width(ws: Seq<MeasuredWord>, k: int, budget: int) -> int
    decreases ws.len() - k,
{
    if k < 0 || k >= ws.len() || ws[k].width > budget {
        0
    } else {
        ws[k].width + fill_width(ws, k + 1, budget - ws[k].width)
    }
}

/// Greatest line height over the words consumed by a greedy fill from word
/// `k` against `budget`.
pub open spec fn fill_height(ws: Seq<MeasuredWord>, k: int, budget: int) -> int
    decreases ws.len() - k,
{
    if k < 0 || k >= ws.len() || ws[k].width > budget {
        0
    } else {
        imax(ws[k].height as int, fill_height(ws, k + 1, budget - ws[k].width))
    }
}

/// End offset of the last word consumed by a greedy fill from word `k`
/// against `budget`, or `last` if none is consumed.
pub open spec fn fill_end(ws: Seq<MeasuredWord>, k: int, budget: int, last: int) -> int
    decreases ws.len() - k,
{
    if k < 0 || k >= ws.len() || ws[k].width > budget {
        last
    } else {
        fill_end(ws, k + 1, budget - ws[k].width, ws[k].end as int)
    }
}

/// Result of one fill: bytes consumed from the offset, occupied width, and
/// the line height over the consumed words.
pub struct GFill {
    pub len: int,
    pub width: int,
    pub height: int,
}

/// The fill primitive's result: scan words in source order from `offset`,
/// accumulate advance widths until adding the next word would exceed
/// `budget`, and return the last complete-word boundary that still fits. If
/// the very first word already overflows the budget, the result is
/// zero-length and zero-width.
pub open spec fn spec_fill(ws: Seq<MeasuredWord>, budget: int, offset: int) -> GFill {
    let k = next_word(ws, offset, 0);
    GFill {
        len: fill_end(ws, k, budget, offset) - offset,
        width: fill_width(ws, k, budget),
        height: fill_height(ws, k, budget),
    }
}

/// Where skipping the whitespace at `offset` lands: `offset` itself if it
/// lies within a word, else the start of the next word, else `len`.
pub open spec fn spec_skip(ws: Seq<MeasuredWord>, offset: int, len: int) -> int {
    let k = next_word(ws, offset, 0);
    if k < ws.len() {
        if ws[k].start <= offset {
            offset
        } else {
            ws[k].start as int
        }
    } else {
        len
    }
}

/// The overflow escape: place the next word whatever its width, so that the
/// offset strictly advances even for a single word wider than any budget.
pub open spec fn spec_fill_forced(ws: Seq<MeasuredWord>, offset: int) -> GFill {
    let k = next_word(ws, offset, 0);
    if k < ws.len() {
        GFill { len: ws[k].end - offset, width: ws[k].width as int, height: ws[k].height as int }
    } else {
        GFill { len: 0, width: 0, height: 0 }
    }
}

pub proof fn lemma_fill_bounds(ws: Seq<MeasuredWord>, len: int, k: int, budget: int, last: int)
    requires
        words_wf(ws, len),
        0 <= k <= ws.len(),
        0 <= last <= len,
        k < ws.len() ==> last <= ws[k].end,
    ensures
        0 <= fill_width(ws, k, budget) <= imax(budget, 0),
        0 <= fill_height(ws, k, budget) <= MAX_DIM,
        last <= fill_end(ws, k, budget, last) <= len,
    decreases ws.len() - k,
{
    if !(k < 0 || k >= ws.len() || ws[k].width > budget) {
        lemma_fill_bounds(ws, len, k + 1, budget - ws[k].width, ws[k].end as int);
    }
}

/// Index of the first word that ends after `offset`, or `ws.len()` if none
/// does.
fn next_word_index(ws: &Vec<MeasuredWord>, offset: usize) -> (r: usize)
    ensures
        r == next_word(ws@, offset as int, 0),
        0 <= r <= ws@.len(),
        r < ws@.len() ==> ws@[r as int].end > offset,
{
    let mut k: usize = 0;
    while k < ws.len() && ws[k].end <= offset
        invariant
            0 <= k <= ws@.len(),
            next_word(ws@, offset as int, 0) == next_word(ws@, offset as int, k as int),
        decreases ws@.len() - k,
    {
        proof {
            assert(next_word(ws@, offset as int, k as int) == next_word(
                ws@,
                offset as int,
                k as int + 1,
            ));
        }
        k = k + 1;
    }
    proof {
        lemma_next_word(ws@, offset as int, k as int);
        assert(next_word(ws@, offset as int, k as int) == k as int);
    }
    k
}

/// One iteration of line breaking at `offset`, on a line whose cursor
/// stands at `x`: try a fill in the remaining width; on a zero-length
/// result commit the line, skip the whitespace and retry at the full line
/// width; if that still comes back empty, force the next word onto the
/// fresh line. The produced fragment spans `start..end`; `committed` says
/// whether a line was committed before placing it.
pub struct GTextStep {
    pub committed: bool,
    pub start: int,
    pub end: int,
    pub width: int,
    pub height: int,
}

pub open spec fn spec_text_step(
    ws: Seq<MeasuredWord>,
    len: int,
    max_w: int,
    x: int,
    offset: int,
) -> GTextStep {
    let f1 = spec_fill(ws, max_w - x, offset);
    if f1.len > 0 {
        GTextStep {
            committed: false,
            start: offset,
            end: offset + f1.len,
            width: f1.width,
            height: f1.height,
        }
    } else {
        let o2 = spec_skip(ws, offset, len);
        let f2 = spec_fill(ws, max_w, o2);
        if f2.len > 0 {
            GTextStep { committed: true, start: o2, end: o2 + f2.len, width: f2.width, height: f2.height }
        } else {
            let f3 = spec_fill_forced(ws, o2);
            GTextStep { committed: true, start: o2, end: o2 + f3.len, width: f3.width, height: f3.height }
        }
    }
}

/// Forward progress of line breaking: from any offset short of the text's
/// length, one step strictly advances the offset, whatever the width
/// budget and the cursor — even when the next word is wider than the whole
/// budget. Repeated steps therefore reach the text's length.
pub proof fn lemma_forward_progress(
    ws: Seq<MeasuredWord>,
    len: int,
    max_w: int,
    x: int,
    offset: int,
)
    requires
        words_wf(ws, len),
        0 <= offset < len,
    ensures
        offset < spec_text_step(ws, len, max_w, x, offset).end <= len,
        offset <= spec_text_step(ws, len, max_w, x, offset).start <= spec_text_step(
            ws,
            len,
            max_w,
            x,
            offset,
        ).end,
        0 <= spec_text_step(ws, len, max_w, x, offset).width,
        0 <= spec_text_step(ws, len, max_w, x, offset).height <= MAX_DIM,
        x >= 0 ==> spec_text_step(ws, len, max_w, x, offset).width <= imax(
            imax(max_w, 0),
            MAX_DIM as int,
        ),
{
    let k = next_word(ws, offset, 0);
    lemma_next_word(ws, offset, 0);
    let f1 = spec_fill(ws, max_w - x, offset);
    lemma_fill_bounds(ws, len, k, max_w - x, offset);
    if f1.len > 0 {
    } else {
        let o2 = spec_skip(ws, offset, len);
        let k2 = next_word(ws, o2, 0);
        lemma_next_word(ws, o2, 0);
        if k < ws.len() {
            // There is a word at or after the offset; skipping lands at or
            // before its start, and the same word is still the next one.
            assert(o2 <= ws[k].start || o2 == offset);
            assert(forall|j: int| 0 <= j < k ==> (#[trigger] ws[j]).end <= offset);
            assert(ws[k].end > o2);
            if k2 < k {
                assert(ws[k2].end <= offset);
                assert(ws[k2].end > o2);
                assert(o2 >= offset);
                assert(false);
            }
            if k2 > k {
                assert(ws[k].end <= o2);
                assert(false);
            }
            assert(k2 == k);
            lemma_fill_bounds(ws, len, k2, max_w, o2);
            let f2 = spec_fill(ws, max_w, o2);
            if f2.len > 0 {
            } else {
                assert(spec_fill_forced(ws, o2).len == ws[k].end - o2);
                assert(ws[k].end > o2 >= offset);
            }
        } else {
            // No word remains: skipping the trailing whitespace reaches the
            // end of the text, and both retries come back empty there.
            assert(o2 == len);
            assert(forall|j: int| 0 <= j < ws.len() ==> (#[trigger] ws[j]).end <= offset);
            if k2 < ws.len() {
                assert(ws[k2].end > o2);
                assert(false);
            }
            lemma_fill_bounds(ws, len, k2, max_w, o2);
        }
    }
}

impl TextLayoutInfo {
    /// Skip the whitespace at `offset`: land on the next word (or on
    /// `offset` itself if it already lies within a word), else at the end
    /// of the text.
    pub fn advance_past_whitespace(&self, offset: usize) -> (r: usize)
        requires
            self.wf(),
            offset <= self.text.text@.len(),
        ensures
            r == spec_skip(self.text.words@, offset as int, self.text.text@.len() as int),
            offset <= r <= self.text.text@.len(),
    {
        let k = next_word_index(&self.text.words, offset);
        if k < self.text.words.len() {
            let w = self.text.words[k];
            if w.start <= offset {
                offset
            } else {
                w.start
            }
        } else {
            self.text.text.len()
        }
    }

    /// The fill primitive (greedy line packing): scan words from `offset`,
    /// accumulate advance widths while they fit in `width`, and return the
    /// consumed length, the occupied width and the line height. A first
    /// word wider than the budget yields a zero-length, zero-width result.
    pub fn fill_line(&self, width: i64, offset: usize) -> (r: (usize, i64, i64))
        requires
            self.wf(),
            offset <= self.text.text@.len(),
            -4 * MAX_ACC <= width <= 4 * MAX_ACC,
        ensures
            r.0 == spec_fill(self.text.words@, width as int, offset as int).len,
            r.1 == spec_fill(self.text.words@, width as int, offset as int).width,
            r.2 == spec_fill(self.text.words@, width as int, offset as int).height,
            offset + r.0 <= self.text.text@.len(),
            0 <= r.1 <= imax(width as int, 0),
            0 <= r.2 <= MAX_DIM,
    {
        let ws = &self.text.words;
        let len = self.text.text.len();
        let kk = next_word_index(ws, offset);
        let mut i: usize = kk;
        let mut x: i64 = 0;
        let mut h: i64 = 0;
        let mut last: usize = offset;
        while i < ws.len() && ws[i].width <= width - x
            invariant
                ws == &self.text.words,
                words_wf(ws@, self.text.text@.len() as int),
                len == self.text.text@.len(),
                0 <= kk <= i <= ws@.len(),
                next_word(ws@, offset as int, 0) == kk as int,
                (kk as int) < ws@.len() ==> ws@[kk as int].end > offset,
                0 <= x,
                x <= imax(width as int, 0),
                0 <= h <= MAX_DIM,
                offset <= last <= len,
                i < ws@.len() ==> last <= ws@[i as int].end,
                fill_width(ws@, kk as int, width as int) == x + fill_width(
                    ws@,
                    i as int,
                    width - x,
                ),
                fill_height(ws@, kk as int, width as int) == imax(
                    h as int,
                    fill_height(ws@, i as int, width - x),
                ),
                fill_end(ws@, kk as int, width as int, offset as int) == fill_end(
                    ws@,
                    i as int,
                    width - x,
                    last as int,
                ),
            decreases ws@.len() - i,
    {
            let w = ws[i];
            proof {
                let wsg = ws@;
                let b = width - x;
                assert(fill_width(wsg, i as int, b) == wsg[i as int].width + fill_width(
                    wsg,
                    i as int + 1,
                    b - wsg[i as int].width,
                ));
                assert(fill_height(wsg, i as int, b) == imax(
                    wsg[i as int].height as int,
                    fill_height(wsg, i as int + 1, b - wsg[i as int].width),
                ));
                assert(fill_end(wsg, i as int, b, last as int) == fill_end(
                    wsg,
                    i as int + 1,
                    b - wsg[i as int].width,
                    wsg[i as int].end as int,
                ));
            }
            x = x + w.width;
            if w.height > h {
                h = w.height;
            }
            last = w.end;
            i = i + 1;
        }
        proof {
            lemma_fill_bounds(
                ws@,
                len as int,
                kk as int,
                width as int,
                offset as int,
            );
        }
        (last - offset, x, h)
    }

    /// The overflow escape (the principled "unbounded width" fill): place
    /// the next word whatever its width.
    pub fn fill_line_forced(&self, offset: usize) -> (r: (usize, i64, i64))
        requires
            self.wf(),
            offset <= self.text.text@.len(),
        ensures
            r.0 == spec_fill_forced(self.text.words@, offset as int).len,
            r.1 == spec_fill_forced(self.text.words@, offset as int).width,
            r.2 == spec_fill_forced(self.text.words@, offset as int).height,
            offset + r.0 <= self.text.text@.len(),
            0 <= r.1 <= MAX_DIM,
            0 <= r.2 <= MAX_DIM,
    {
        let k = next_word_index(&self.text.words, offset);
        if k < self.text.words.len() {
            let w = self.text.words[k];
            (w.end - offset, w.width, w.height)
        } else {
            (0, 0, 0)
        }
    }
}


/// One executable line-breaking iteration at `offset` with the cursor at
/// `x`: the committed flag, the fragment's byte range, its width and its
/// line height, exactly as [`spec_text_step`] describes.
pub fn text_step(t: &TextLayoutInfo, max_w: i64, x: i64, offset: usize) -> (r: (
    bool,
    usize,
    usize,
    i64,
    i64,
))
    requires
        t.wf(),
        offset < t.text.text@.len(),
        -MAX_ACC <= max_w <= MAX_ACC,
        0 <= x <= 2 * MAX_ACC,
    ensures
        ({
            let st = spec_text_step(
                t.text.words@,
                t.text.text@.len() as int,
                max_w as int,
                x as int,
                offset as int,
            );
            &&& r.0 == st.committed
            &&& r.1 == st.start
            &&& r.2 == st.end
            &&& r.3 == st.width
            &&& r.4 == st.height
            &&& offset < r.2 <= t.text.text@.len()
            &&& offset <= r.1 <= r.2
            &&& 0 <= r.3 <= imax(imax(max_w as int, 0), MAX_DIM as int)
            &&& 0 <= r.4 <= MAX_DIM
            &&& !r.0 ==> r.3 <= imax(max_w - x, 0)
        }),
{
    proof {
        lemma_forward_progress(
            t.text.words@,
            t.text.text@.len() as int,
            max_w as int,
            x as int,
            offset as int,
        );
    }
    let (n1, w1, h1) = t.fill_line(max_w - x, offset);
    if n1 > 0 {
        (false, offset, offset + n1, w1, h1)
    } else {
        let o2 = t.advance_past_whitespace(offset);
        let (n2, w2, h2) = t.fill_line(max_w, o2);
        if n2 > 0 {
            (true, o2, o2 + n2, w2, h2)
        } else {
            let (n3, w3, h3) = t.fill_line_forced(o2);
            (true, o2, o2 + n3, w3, h3)
        }
    }
}

} // verus!
