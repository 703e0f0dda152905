//! Math detection + decorations.
//!
//! Detects inline math `$...$` and block math `$$...$$` (viewport-scoped).
//! [`math_spans`] reports each span's byte range, kind and inner LaTeX range
//! so a host can render it. [`math_decorations`] is the render-off fallback:
//! inline math gets a monospace, violet-on-tint mark; block math gets a tinted
//! background on every line it touches, delimiter lines included.

use vstd::prelude::*;

use crate::decoration::Color;
use crate::decoration::Decoration;
use crate::decoration::DecorationSet;
use crate::decoration::LineStyle;
use crate::decoration::MarkStyle;
use crate::decoration::Theme;
use crate::decoration::copy_range;
use crate::decoration::entries_are;
use crate::document::EditorState;
use crate::document::is_line_table;
use crate::document::lemma_lines;
use crate::document::line_end;
use crate::document::line_end_at;
use crate::document::line_of;
use crate::document::line_of_exec;
use crate::document::line_start;
use crate::document::line_start_at;
use crate::document::line_start_table;
use crate::text::NL;

verus! {

broadcast use vstd::seq::group_seq_axioms;

/// `$`
pub const DOLLAR: u8 = 36;

/// Default foreground of inline math.
pub open spec fn color_math_fg() -> Color {
    Color { r: 170, g: 120, b: 220, a: 255 }
}

/// Default background of math.
pub open spec fn color_math_bg() -> Color {
    Color { r: 170, g: 120, b: 220, a: 25 }
}

/// Which LaTeX style a detected math span renders in.
#[derive(Clone, Copy, Debug, PartialEq, Eq, Structural, Hash)]
pub enum MathKind {
    /// `$…$` — compact, baseline-aligned inline widget.
    Inline,
    /// `$$…$$` — full-size, centered block widget.
    Display,
}

/// A detected math span: the full source byte range (delimiters inclusive),
/// the kind, and the inner range (the LaTeX source between the delimiters).
#[derive(Debug, PartialEq, Eq)]
pub struct MathSpan {
    pub byte_range: std::ops::Range<usize>,
    pub kind: MathKind,
    pub inner_range: std::ops::Range<usize>,
}

impl Clone for MathSpan {
    fn clone(&self) -> (s: MathSpan)
        ensures
            s == *self,
    {
        MathSpan {
            byte_range: copy_range(&self.byte_range),
            kind: self.kind,
            inner_range: copy_range(&self.inner_range),
        }
    }
}

/// Byte range a scan covers: the viewport clamped to the text, or all of it.
pub open spec fn scan_bounds_spec(len: int, viewport: Option<&std::ops::Range<usize>>) -> (int, int) {
    match viewport {
        Some(vp) => (
            if vp.start < len {
                vp.start as int
            } else {
                len
            },
            if vp.end < len {
                vp.end as int
            } else {
                len
            },
        ),
        None => (0, len),
    }
}

/// `b[i..i + 2]` is `$$`.
pub open spec fn dd_at(b: Seq<u8>, i: int) -> bool {
    0 <= i && i + 1 < b.len() && b[i] == DOLLAR && b[i + 1] == DOLLAR
}

/// The first `$$` at or after `j`, or -1 when there is none.
pub open spec fn first_dd_from(b: Seq<u8>, j: int) -> int
    decreases b.len() - j,
{
    if j < 0 || j + 1 >= b.len() {
        -1
    } else if dd_at(b, j) {
        j
    } else {
        first_dd_from(b, j + 1)
    }
}

/// Distance from `i` up to `end`, or 0 past it.
pub open spec fn gap(i: int, end: int) -> int {
    if i < end {
        end - i
    } else {
        0
    }
}

/// Block spans `$$…$$` whose opener lies in `i..end`, as `(start, end)` byte
/// pairs, delimiters included. The closer is searched to the end of the
/// text; the scan stops at an opener that is never closed, and resumes after
/// each closer.
pub open spec fn block_spans_from(b: Seq<u8>, i: int, end: int) -> Seq<(int, int)>
    decreases gap(i, end),
{
    if i < 0 || i + 1 >= end {
        seq![]
    } else if dd_at(b, i) {
        let c = first_dd_from(b, i + 2);
        if c < i + 2 {
            seq![]
        } else {
            seq![(i, c + 2)] + block_spans_from(b, c + 2, end)
        }
    } else {
        block_spans_from(b, i + 1, end)
    }
}

/// Offset `off` lies inside one of the byte ranges `blocks`.
pub open spec fn in_blocks(blocks: Seq<(int, int)>, off: int) -> bool {
    exists|k: int| 0 <= k < blocks.len() && (#[trigger] blocks[k]).0 <= off < blocks[k].1
}

/// The first `\n` or `$` at or after `j`, or the end of the text.
pub open spec fn inline_stop_from(b: Seq<u8>, j: int) -> int
    decreases b.len() - j,
{
    if j < 0 || j >= b.len() {
        b.len() as int
    } else if b[j] == NL || b[j] == DOLLAR {
        j
    } else {
        inline_stop_from(b, j + 1)
    }
}

/// Inline spans `$…$` whose opener lies in `i..end` and outside `blocks`, as
/// `(start, end)` byte pairs, delimiters included. A `$$` is skipped whole;
/// an opener with no `$` before the end of its line is no span.
pub open spec fn inline_spans_from(b: Seq<u8>, blocks: Seq<(int, int)>, i: int, end: int) -> Seq<
    (int, int),
>
    decreases gap(i, end),
{
    if i < 0 || i >= end || i >= b.len() {
        seq![]
    } else if b[i] == DOLLAR && !in_blocks(blocks, i) {
        if i + 1 < b.len() && b[i + 1] == DOLLAR {
            inline_spans_from(b, blocks, i + 2, end)
        } else {
            let c = inline_stop_from(b, i + 1);
            if c <= i || c >= b.len() || b[c] == NL {
                inline_spans_from(b, blocks, i + 1, end)
            } else {
                seq![(i, c + 1)] + inline_spans_from(b, blocks, c + 1, end)
            }
        }
    } else {
        inline_spans_from(b, blocks, i + 1, end)
    }
}

/// Every math span of `b` the viewport covers, as `(start, end, kind)`:
/// the block spans first, then the inline spans outside them.
pub open spec fn math_spans_spec(b: Seq<u8>, viewport: Option<&std::ops::Range<usize>>) -> Seq<
    (int, int, MathKind),
> {
    let r = scan_bounds_spec(b.len() as int, viewport);
    let bl = block_spans_from(b, r.0, r.1);
    let il = inline_spans_from(b, bl, r.0, r.1);
    bl.map_values(|s: (int, int)| (s.0, s.1, MathKind::Display)) + il.map_values(
        |s: (int, int)| (s.0, s.1, MathKind::Inline),
    )
}

/// Width of a span's delimiter: 2 for `$$`, 1 for `$`.
pub open spec fn delim_width(kind: MathKind) -> int {
    match kind {
        MathKind::Display => 2,
        MathKind::Inline => 1,
    }
}

/// `s` reports the span `m`: its byte range, its kind, and the inner range
/// between the delimiters.
pub open spec fn span_is(s: MathSpan, m: (int, int, MathKind)) -> bool {
    &&& s.byte_range.start == m.0
    &&& s.byte_range.end == m.1
    &&& s.kind == m.2
    &&& s.inner_range.start == m.0 + delim_width(m.2)
    &&& s.inner_range.end == m.1 - delim_width(m.2)
}

fn scan_bounds(len: usize, viewport: Option<&std::ops::Range<usize>>) -> (r: (usize, usize))
    ensures
        (r.0 as int, r.1 as int) == scan_bounds_spec(len as int, viewport),
{
    match viewport {
        Some(vp) => (
            if vp.start < len {
                vp.start
            } else {
                len
            },
            if vp.end < len {
                vp.end
            } else {
                len
            },
        ),
        None => (0, len),
    }
}

proof fn lemma_first_dd_from(b: Seq<u8>, j: int)
    requires
        j >= 0,
    ensures
        first_dd_from(b, j) == -1 || (j <= first_dd_from(b, j) && dd_at(b, first_dd_from(b, j))),
        first_dd_from(b, j) >= 0 ==> forall|x: int| j <= x < first_dd_from(b, j) ==> !dd_at(b, x),
    decreases b.len() - j,
{
    if j + 1 < b.len() && !dd_at(b, j) {
        lemma_first_dd_from(b, j + 1);
    }
}

proof fn lemma_inline_stop_from(b: Seq<u8>, j: int)
    requires
        j >= 0,
    ensures
        j <= inline_stop_from(b, j) <= b.len() || (j > b.len() && inline_stop_from(b, j) == b.len()),
        inline_stop_from(b, j) < b.len() ==> (b[inline_stop_from(b, j)] == NL || b[inline_stop_from(
            b,
            j,
        )] == DOLLAR),
        forall|k: int| j <= k < inline_stop_from(b, j) ==> b[k] != NL && b[k] != DOLLAR,
    decreases b.len() - j,
{
    if j < b.len() && b[j] != NL && b[j] != DOLLAR {
        lemma_inline_stop_from(b, j + 1);
    }
}

/// Shape of the block spans found from `i`: each lies in the text, opens
/// and closes with `$$` (so it spans at least four bytes), closes at the
/// first `$$` after its opener, and each ends no later than the next begins.
pub proof fn lemma_block_spans_shape(b: Seq<u8>, i: int, end: int)
    requires
        0 <= i,
        end <= b.len(),
    ensures
        forall|m: int|
            0 <= m < block_spans_from(b, i, end).len() ==> {
                let s = #[trigger] block_spans_from(b, i, end)[m];
                &&& i <= s.0 < end
                &&& s.0 + 4 <= s.1 <= b.len()
                &&& dd_at(b, s.0)
                &&& dd_at(b, s.1 - 2)
                &&& forall|x: int| s.0 + 2 <= x < s.1 - 2 ==> !dd_at(b, x)
            },
        forall|m: int, n: int|
            0 <= m < n < block_spans_from(b, i, end).len() ==> (#[trigger] block_spans_from(
                b,
                i,
                end,
            )[m]).1 <= (#[trigger] block_spans_from(b, i, end)[n]).0,
    decreases gap(i, end),
{
    let all = block_spans_from(b, i, end);
    if i + 1 < end {
        if dd_at(b, i) {
            let c = first_dd_from(b, i + 2);
            lemma_first_dd_from(b, i + 2);
            if c >= i + 2 {
                lemma_block_spans_shape(b, c + 2, end);
                let rest = block_spans_from(b, c + 2, end);
                assert(all == seq![(i, c + 2)] + rest);
                assert forall|m: int| 0 <= m < all.len() implies {
                    let s = #[trigger] all[m];
                    &&& i <= s.0 < end
                    &&& s.0 + 4 <= s.1 <= b.len()
                    &&& dd_at(b, s.0)
                    &&& dd_at(b, s.1 - 2)
                    &&& forall|x: int| s.0 + 2 <= x < s.1 - 2 ==> !dd_at(b, x)
                } by {
                    if m > 0 {
                        assert(all[m] == rest[m - 1]);
                    }
                }
                assert forall|m: int, n: int| 0 <= m < n < all.len() implies (#[trigger] all[m]).1
                    <= (#[trigger] all[n]).0 by {
                    assert(all[n] == rest[n - 1]);
                    if m > 0 {
                        assert(all[m] == rest[m - 1]);
                    }
                }
            }
        } else {
            lemma_block_spans_shape(b, i + 1, end);
            assert(all == block_spans_from(b, i + 1, end));
        }
    }
}

/// Shape of the inline spans found from `i`: each lies in the text, starts
/// outside every block range, is delimited by single `$`s around a non-empty
/// inner source holding neither `$` nor a newline, and ends no later than the
/// next begins.
pub proof fn lemma_inline_spans_shape(b: Seq<u8>, blocks: Seq<(int, int)>, i: int, end: int)
    requires
        0 <= i,
        end <= b.len(),
    ensures
        forall|m: int|
            0 <= m < inline_spans_from(b, blocks, i, end).len() ==> {
                let s = #[trigger] inline_spans_from(b, blocks, i, end)[m];
                &&& i <= s.0 < end
                &&& s.0 + 3 <= s.1 <= b.len()
                &&& b[s.0] == DOLLAR
                &&& b[s.1 - 1] == DOLLAR
                &&& !in_blocks(blocks, s.0)
                &&& forall|k: int| s.0 < k < s.1 - 1 ==> b[k] != NL && b[k] != DOLLAR
            },
        forall|m: int, n: int|
            0 <= m < n < inline_spans_from(b, blocks, i, end).len() ==> (
            #[trigger] inline_spans_from(b, blocks, i, end)[m]).1 <= (
            #[trigger] inline_spans_from(b, blocks, i, end)[n]).0,
    decreases gap(i, end),
{
    let all = inline_spans_from(b, blocks, i, end);
    if i < end && i < b.len() {
        if b[i] == DOLLAR && !in_blocks(blocks, i) {
            if i + 1 < b.len() && b[i + 1] == DOLLAR {
                lemma_inline_spans_shape(b, blocks, i + 2, end);
                assert(all == inline_spans_from(b, blocks, i + 2, end));
            } else {
                let c = inline_stop_from(b, i + 1);
                lemma_inline_stop_from(b, i + 1);
                if c <= i || c >= b.len() || b[c] == NL {
                    lemma_inline_spans_shape(b, blocks, i + 1, end);
                    assert(all == inline_spans_from(b, blocks, i + 1, end));
                } else {
                    lemma_inline_spans_shape(b, blocks, c + 1, end);
                    let rest = inline_spans_from(b, blocks, c + 1, end);
                    assert(all == seq![(i, c + 1)] + rest);
                    assert forall|m: int| 0 <= m < all.len() implies {
                        let s = #[trigger] all[m];
                        &&& i <= s.0 < end
                        &&& s.0 + 3 <= s.1 <= b.len()
                        &&& b[s.0] == DOLLAR
                        &&& b[s.1 - 1] == DOLLAR
                        &&& !in_blocks(blocks, s.0)
                        &&& forall|k: int| s.0 < k < s.1 - 1 ==> b[k] != NL && b[k] != DOLLAR
                    } by {
                        if m > 0 {
                            assert(all[m] == rest[m - 1]);
                        } else {
                            assert(b[i + 1] != DOLLAR);
                            assert(c != i + 1);
                        }
                    }
                    assert forall|m: int, n: int| 0 <= m < n < all.len() implies (#[trigger] all[m]).1
                        <= (#[trigger] all[n]).0 by {
                        assert(all[n] == rest[n - 1]);
                        if m > 0 {
                            assert(all[m] == rest[m - 1]);
                        }
                    }
                }
            }
        } else {
            lemma_inline_spans_shape(b, blocks, i + 1, end);
            assert(all == inline_spans_from(b, blocks, i + 1, end));
        }
    }
}

/// Every reported math span lies in the text and is delimited as its kind
/// says (a block span is at least `$$$$`, an inline one at least `$x$`): a block span opens and closes with `$$`; an inline span is a `$`,
/// a non-empty source with neither `$` nor a newline, and a `$`. Block spans
/// never overlap each other, inline spans never overlap each other, and no
/// inline span starts inside a block span, so a `$$` is never read as two
/// inline delimiters.
pub proof fn lemma_math_spans_shape(b: Seq<u8>, viewport: Option<&std::ops::Range<usize>>)
    ensures
        forall|k: int|
            0 <= k < math_spans_spec(b, viewport).len() ==> {
                let m = #[trigger] math_spans_spec(b, viewport)[k];
                &&& 0 <= m.0
                &&& m.0 + 2 * delim_width(m.2) + (if m.2 == MathKind::Inline { 1int } else { 0 }) <= m.1
                &&& m.1 <= b.len()
                &&& m.2 == MathKind::Display ==> dd_at(b, m.0) && dd_at(b, m.1 - 2)
                &&& m.2 == MathKind::Inline ==> {
                    &&& b[m.0] == DOLLAR
                    &&& b[m.1 - 1] == DOLLAR
                    &&& forall|x: int| m.0 < x < m.1 - 1 ==> b[x] != NL && b[x] != DOLLAR
                    &&& forall|j: int|
                        0 <= j < math_spans_spec(b, viewport).len()
                            && (#[trigger] math_spans_spec(b, viewport)[j]).2 == MathKind::Display
                            ==> !(math_spans_spec(b, viewport)[j].0 <= m.0 < math_spans_spec(
                            b,
                            viewport,
                        )[j].1)
                }
            },
        forall|i: int, j: int|
            0 <= i < j < math_spans_spec(b, viewport).len() && (#[trigger] math_spans_spec(
                b,
                viewport,
            )[i]).2 == (#[trigger] math_spans_spec(b, viewport)[j]).2 ==> math_spans_spec(
                b,
                viewport,
            )[i].1 <= math_spans_spec(b, viewport)[j].0,
{
    let r = scan_bounds_spec(b.len() as int, viewport);
    let bl = block_spans_from(b, r.0, r.1);
    let il = inline_spans_from(b, bl, r.0, r.1);
    let ms = math_spans_spec(b, viewport);
    let nb = bl.len() as int;
    lemma_block_spans_shape(b, r.0, r.1);
    lemma_inline_spans_shape(b, bl, r.0, r.1);
    assert forall|k: int| 0 <= k < ms.len() implies {
        let m = #[trigger] ms[k];
        &&& 0 <= m.0
        &&& m.0 + 2 * delim_width(m.2) + (if m.2 == MathKind::Inline { 1int } else { 0 }) <= m.1
        &&& m.1 <= b.len()
        &&& m.2 == MathKind::Display ==> dd_at(b, m.0) && dd_at(b, m.1 - 2)
        &&& m.2 == MathKind::Inline ==> {
            &&& b[m.0] == DOLLAR
            &&& b[m.1 - 1] == DOLLAR
            &&& forall|x: int| m.0 < x < m.1 - 1 ==> b[x] != NL && b[x] != DOLLAR
            &&& forall|j: int|
                0 <= j < ms.len() && (#[trigger] ms[j]).2 == MathKind::Display ==> !(ms[j].0 <= m.0
                    < ms[j].1)
        }
    } by {
        if k < nb {
            assert(ms[k] == (bl[k].0, bl[k].1, MathKind::Display));
        } else {
            let s = il[k - nb];
            assert(ms[k] == (s.0, s.1, MathKind::Inline));
            assert forall|j: int| 0 <= j < ms.len() && (#[trigger] ms[j]).2 == MathKind::Display implies !(
            ms[j].0 <= s.0 < ms[j].1) by {
                if j >= nb {
                    assert(ms[j] == (il[j - nb].0, il[j - nb].1, MathKind::Inline));
                } else {
                    assert(ms[j] == (bl[j].0, bl[j].1, MathKind::Display));
                    if bl[j].0 <= s.0 < bl[j].1 {
                        assert(in_blocks(bl, s.0));
                    }
                }
            }
        }
    }
    assert forall|i: int, j: int|
        0 <= i < j < ms.len() && (#[trigger] ms[i]).2 == (#[trigger] ms[j]).2 implies ms[i].1
        <= ms[j].0 by {
        if j < nb {
            assert(ms[i] == (bl[i].0, bl[i].1, MathKind::Display));
            assert(ms[j] == (bl[j].0, bl[j].1, MathKind::Display));
        } else if i >= nb {
            assert(ms[i] == (il[i - nb].0, il[i - nb].1, MathKind::Inline));
            assert(ms[j] == (il[j - nb].0, il[j - nb].1, MathKind::Inline));
        } else {
            assert(ms[i] == (bl[i].0, bl[i].1, MathKind::Display));
            assert(ms[j] == (il[j - nb].0, il[j - nb].1, MathKind::Inline));
        }
    }
}

/// The math spans come display spans first, then inline spans, each group
/// in ascending order of start; every span opens within the scanned range
/// (a display span may close past it); a display span closes at the first
/// `$$` after its opener, so its inner source holds no `$$` that starts
/// within it.
pub proof fn lemma_math_spans_order(b: Seq<u8>, viewport: Option<&std::ops::Range<usize>>)
    ensures
        forall|i: int, j: int|
            0 <= i < j < math_spans_spec(b, viewport).len() && (#[trigger] math_spans_spec(b, viewport)[i]).2
                == MathKind::Inline ==> (#[trigger] math_spans_spec(b, viewport)[j]).2 == MathKind::Inline,
        forall|i: int, j: int|
            0 <= i < j < math_spans_spec(b, viewport).len() && (#[trigger] math_spans_spec(b, viewport)[i]).2
                == (#[trigger] math_spans_spec(b, viewport)[j]).2 ==> math_spans_spec(b, viewport)[i].0
                < math_spans_spec(b, viewport)[j].0,
        forall|k: int|
            0 <= k < math_spans_spec(b, viewport).len() ==> scan_bounds_spec(b.len() as int, viewport).0
                <= (#[trigger] math_spans_spec(b, viewport)[k]).0 < scan_bounds_spec(b.len() as int, viewport).1,
        forall|k: int, x: int|
            0 <= k < math_spans_spec(b, viewport).len() && (#[trigger] math_spans_spec(b, viewport)[k]).2
                == MathKind::Display && math_spans_spec(b, viewport)[k].0 + 2 <= x < math_spans_spec(
                b,
                viewport,
            )[k].1 - 2 ==> !#[trigger] dd_at(b, x),
{
    let r = scan_bounds_spec(b.len() as int, viewport);
    let bl = block_spans_from(b, r.0, r.1);
    let il = inline_spans_from(b, bl, r.0, r.1);
    let ms = math_spans_spec(b, viewport);
    let nb = bl.len() as int;
    lemma_block_spans_shape(b, r.0, r.1);
    lemma_inline_spans_shape(b, bl, r.0, r.1);
    lemma_math_spans_shape(b, viewport);
    assert forall|k: int| 0 <= k < ms.len() implies (#[trigger] ms[k]).2 == (if k < nb {
        MathKind::Display
    } else {
        MathKind::Inline
    }) && (k < nb ==> ms[k] == (bl[k].0, bl[k].1, MathKind::Display)) && (k >= nb ==> ms[k] == (
    il[k - nb].0,
    il[k - nb].1,
    MathKind::Inline,
    )) by {
        if k < nb {
            assert(ms[k] == (bl[k].0, bl[k].1, MathKind::Display));
        } else {
            assert(ms[k] == (il[k - nb].0, il[k - nb].1, MathKind::Inline));
        }
    }
    assert forall|i: int, j: int| 0 <= i < j < ms.len() && (#[trigger] ms[i]).2 == (#[trigger] ms[j]).2
        implies ms[i].0 < ms[j].0 by {
        if j < nb {
            assert(bl[i].0 + 4 <= bl[i].1 <= bl[j].0);
        } else if i >= nb {
            assert(il[i - nb].0 + 3 <= il[i - nb].1);
            assert(il[i - nb].1 <= il[j - nb].0);
        }
    }
    assert forall|k: int, x: int|
        0 <= k < ms.len() && (#[trigger] ms[k]).2 == MathKind::Display && ms[k].0 + 2 <= x < ms[k].1 - 2 implies !#[trigger] dd_at(
        b,
        x,
    ) by {
        assert(k < nb);
        let s = bl[k];
        assert(forall|y: int| s.0 + 2 <= y < s.1 - 2 ==> !dd_at(b, y));
    }
}

/// Exec form of [`first_dd_from`].
fn find_dd(b: &[u8], j: usize) -> (c: Option<usize>)
    ensures
        match c {
            Some(x) => x as int == first_dd_from(b@, j as int),
            None => first_dd_from(b@, j as int) == -1,
        },
{
    let n = b.len();
    let mut k = j;
    while k < n && n - k >= 2
        invariant
            n == b@.len(),
            j <= k,
            first_dd_from(b@, k as int) == first_dd_from(b@, j as int),
        decreases n - k,
    {
        if b[k] == DOLLAR && b[k + 1] == DOLLAR {
            return Some(k);
        }
        k = k + 1;
    }
    None
}

/// Exec form of [`inline_stop_from`].
fn find_inline_stop(b: &[u8], j: usize) -> (c: usize)
    requires
        j <= b@.len(),
    ensures
        c as int == inline_stop_from(b@, j as int),
{
    let n = b.len();
    let mut k = j;
    while k < n
        invariant
            n == b@.len(),
            j <= k <= n,
            inline_stop_from(b@, k as int) == inline_stop_from(b@, j as int),
        decreases n - k,
    {
        if b[k] == NL || b[k] == DOLLAR {
            return k;
        }
        k = k + 1;
    }
    k
}

/// The `$$ … $$` spans (which may cross lines) opening in `start..end`.
fn scan_block_spans(b: &[u8], start: usize, end: usize) -> (spans: Vec<(usize, usize)>)
    requires
        start <= b@.len(),
        end <= b@.len(),
    ensures
        spans@.len() == block_spans_from(b@, start as int, end as int).len(),
        forall|k: int|
            0 <= k < spans@.len() ==> (spans@[k].0 as int, spans@[k].1 as int)
                == #[trigger] block_spans_from(b@, start as int, end as int)[k],
{
    let mut spans: Vec<(usize, usize)> = Vec::new();
    let ghost mut acc: Seq<(int, int)> = seq![];
    let mut i = start;
    while i < end && end - i >= 2
        invariant
            start <= i,
            start <= b@.len(),
            end <= b@.len(),
            acc + block_spans_from(b@, i as int, end as int) == block_spans_from(
                b@,
                start as int,
                end as int,
            ),
            spans@.len() == acc.len(),
            forall|k: int|
                0 <= k < spans@.len() ==> (spans@[k].0 as int, spans@[k].1 as int) == #[trigger] acc[k],
        decreases b@.len() - i,
    {
        if b[i] == DOLLAR && b[i + 1] == DOLLAR {
            proof {
                lemma_first_dd_from(b@, i + 2);
            }
            match find_dd(b, i + 2) {
                None => {
                    proof {
                        assert(block_spans_from(b@, i as int, end as int) == Seq::<(int, int)>::empty());
                        assert(acc == block_spans_from(b@, start as int, end as int));
                    }
                    return spans;
                },
                Some(c) => {
                    proof {
                        assert(block_spans_from(b@, i as int, end as int) == seq![(i as int, c + 2)]
                            + block_spans_from(b@, c + 2, end as int));
                        acc = acc.push((i as int, c + 2));
                    }
                    spans.push((i, c + 2));
                    i = c + 2;
                },
            }
        } else {
            i = i + 1;
        }
    }
    proof {
        assert(block_spans_from(b@, i as int, end as int) == Seq::<(int, int)>::empty());
        assert(acc == block_spans_from(b@, start as int, end as int));
    }
    spans
}

/// Whether `off` lies inside one of `blocks`.
fn in_block(blocks: &Vec<(usize, usize)>, off: usize) -> (r: bool)
    ensures
        r == exists|k: int| 0 <= k < blocks@.len() && (#[trigger] blocks@[k]).0 <= off < blocks@[k].1,
{
    let mut k: usize = 0;
    while k < blocks.len()
        invariant
            k <= blocks@.len(),
            forall|m: int| 0 <= m < k ==> !((#[trigger] blocks@[m]).0 <= off < blocks@[m].1),
        decreases blocks@.len() - k,
    {
        if blocks[k].0 <= off && off < blocks[k].1 {
            return true;
        }
        k = k + 1;
    }
    false
}

/// The single-line `$ … $` spans opening in `start..end`, skipping any byte
/// inside a block span.
fn scan_inline_spans(b: &[u8], start: usize, end: usize, blocks: &Vec<(usize, usize)>) -> (spans: Vec<
    (usize, usize),
>)
    requires
        start <= b@.len(),
        end <= b@.len(),
    ensures
        ({
            let bl = blocks@.map_values(|p: (usize, usize)| (p.0 as int, p.1 as int));
            &&& spans@.len() == inline_spans_from(b@, bl, start as int, end as int).len()
            &&& forall|k: int|
                0 <= k < spans@.len() ==> (spans@[k].0 as int, spans@[k].1 as int)
                    == #[trigger] inline_spans_from(b@, bl, start as int, end as int)[k]
        }),
{
    let ghost bl = blocks@.map_values(|p: (usize, usize)| (p.0 as int, p.1 as int));
    let n = b.len();
    let mut spans: Vec<(usize, usize)> = Vec::new();
    let ghost mut acc: Seq<(int, int)> = seq![];
    let mut i = start;
    while i < end
        invariant
            n == b@.len(),
            start <= i,
            end <= n,
            bl == blocks@.map_values(|p: (usize, usize)| (p.0 as int, p.1 as int)),
            acc + inline_spans_from(b@, bl, i as int, end as int) == inline_spans_from(
                b@,
                bl,
                start as int,
                end as int,
            ),
            spans@.len() == acc.len(),
            forall|k: int|
                0 <= k < spans@.len() ==> (spans@[k].0 as int, spans@[k].1 as int) == #[trigger] acc[k],
        decreases n - i,
    {
        let inb = in_block(blocks, i);
        proof {
            if inb {
                let k = choose|k: int|
                    0 <= k < blocks@.len() && (#[trigger] blocks@[k]).0 <= i < blocks@[k].1;
                assert(bl[k] == (blocks@[k].0 as int, blocks@[k].1 as int));
                assert(in_blocks(bl, i as int));
            } else {
                assert forall|k: int| 0 <= k < bl.len() implies !((#[trigger] bl[k]).0 <= i < bl[k].1) by {
                    assert(bl[k] == (blocks@[k].0 as int, blocks@[k].1 as int));
                    assert(!((blocks@[k]).0 <= i < blocks@[k].1));
                }
            }
        }
        if b[i] == DOLLAR && !inb {
            if i + 1 < n && b[i + 1] == DOLLAR {
                i = i + 2;
            } else {
                let c = find_inline_stop(b, i + 1);
                proof {
                    lemma_inline_stop_from(b@, i + 1);
                }
                if c >= n || b[c] == NL {
                    i = i + 1;
                } else {
                    proof {
                        assert(inline_spans_from(b@, bl, i as int, end as int) == seq![(i as int, c + 1)]
                            + inline_spans_from(b@, bl, c + 1, end as int));
                        acc = acc.push((i as int, c + 1));
                    }
                    spans.push((i, c + 1));
                    i = c + 1;
                }
            }
        } else {
            i = i + 1;
        }
    }
    proof {
        assert(inline_spans_from(b@, bl, i as int, end as int) == Seq::<(int, int)>::empty());
        assert(acc == inline_spans_from(b@, bl, start as int, end as int));
    }
    spans
}

/// Scan the document (viewport-scoped) for inline `$…$` and block `$$…$$`
/// math spans. Block math is detected first so a `$$` opener is never taken
/// for two adjacent inline delimiters.
pub fn math_spans(state: &EditorState, viewport: Option<&std::ops::Range<usize>>) -> (res: Vec<
    MathSpan,
>)
    ensures
        res@.len() == math_spans_spec(state.doc.bytes(), viewport).len(),
        forall|k: int|
            0 <= k < res@.len() ==> span_is(
                #[trigger] res@[k],
                math_spans_spec(state.doc.bytes(), viewport)[k],
            ),
{
    let b = state.doc.as_str().as_bytes();
    let (start, end) = scan_bounds(b.len(), viewport);
    let blocks = scan_block_spans(b, start, end);
    let ghost bl = block_spans_from(b@, start as int, end as int);
    proof {
        assert(blocks@.map_values(|p: (usize, usize)| (p.0 as int, p.1 as int)) == bl);
    }
    let inlines = scan_inline_spans(b, start, end, &blocks);
    let ghost il = inline_spans_from(b@, bl, start as int, end as int);
    let ghost ms = math_spans_spec(b@, viewport);
    proof {
        lemma_block_spans_shape(b@, start as int, end as int);
        lemma_inline_spans_shape(b@, bl, start as int, end as int);
    }
    let mut res: Vec<MathSpan> = Vec::new();
    let mut k: usize = 0;
    while k < blocks.len()
        invariant
            ms == bl.map_values(|s: (int, int)| (s.0, s.1, MathKind::Display)) + il.map_values(
                |s: (int, int)| (s.0, s.1, MathKind::Inline),
            ),
            blocks@.len() == bl.len(),
            forall|m: int|
                0 <= m < blocks@.len() ==> (blocks@[m].0 as int, blocks@[m].1 as int) == #[trigger] bl[m],
            forall|m: int| 0 <= m < bl.len() ==> dd_at(b@, (#[trigger] bl[m]).0) && bl[m].0 + 4 <= bl[m].1,
            k <= blocks@.len(),
            res@.len() == k,
            forall|m: int| 0 <= m < k ==> span_is(#[trigger] res@[m], ms[m]),
        decreases blocks@.len() - k,
    {
        let (s, e) = blocks[k];
        assert(bl[k as int].0 + 4 <= bl[k as int].1);
        res.push(MathSpan { byte_range: s..e, kind: MathKind::Display, inner_range: s + 2..e - 2 });
        k = k + 1;
    }
    let mut k: usize = 0;
    while k < inlines.len()
        invariant
            ms == bl.map_values(|s: (int, int)| (s.0, s.1, MathKind::Display)) + il.map_values(
                |s: (int, int)| (s.0, s.1, MathKind::Inline),
            ),
            inlines@.len() == il.len(),
            forall|m: int|
                0 <= m < inlines@.len() ==> (inlines@[m].0 as int, inlines@[m].1 as int) == #[trigger] il[m],
            forall|m: int| 0 <= m < il.len() ==> (#[trigger] il[m]).0 + 2 <= il[m].1,
            k <= inlines@.len(),
            res@.len() == bl.len() + k,
            forall|m: int| 0 <= m < bl.len() + k ==> span_is(#[trigger] res@[m], ms[m]),
        decreases inlines@.len() - k,
    {
        let (s, e) = inlines[k];
        assert(il[k as int].0 + 2 <= il[k as int].1);
        res.push(MathSpan { byte_range: s..e, kind: MathKind::Inline, inner_range: s + 1..e - 1 });
        k = k + 1;
    }
    res
}

/// The mark inline math gets: monospace, `fg` on `bg`.
pub open spec fn math_mark(fg: Color, bg: Color) -> MarkStyle {
    MarkStyle {
        bold: false,
        italic: false,
        strikethrough: false,
        underline: false,
        fg: Some(fg),
        bg: Some(bg),
        font_scale: None,
        monospace: true,
        atomic: false,
    }
}

/// The decorations of one span `m`: a tinted line for every line a block
/// span touches (from the line of its first byte to the line of its last),
/// or one mark over an inline span.
pub open spec fn span_entries(b: Seq<u8>, m: (int, int, MathKind), fg: Color, bg: Color) -> Seq<
    (int, int, Decoration),
> {
    match m.2 {
        MathKind::Display => {
            let l0 = line_of(b, m.0);
            let l1 = line_of(
                b,
                if m.1 > 0 {
                    m.1 - 1
                } else {
                    0
                },
            );
            Seq::new(
                if l1 >= l0 {
                    (l1 + 1 - l0) as nat
                } else {
                    0
                },
                |k: int| (line_start(b, l0 + k), line_end(b, l0 + k), Decoration::Line(LineStyle::spec_tinted(bg))),
            )
        },
        MathKind::Inline => seq![(m.0, m.1, Decoration::Mark(math_mark(fg, bg)))],
    }
}

/// The decorations of the spans `ms`, span by span.
pub open spec fn math_entries(b: Seq<u8>, ms: Seq<(int, int, MathKind)>, fg: Color, bg: Color) -> Seq<
    (int, int, Decoration),
>
    decreases ms.len(),
{
    if ms.len() == 0 {
        seq![]
    } else {
        math_entries(b, ms.drop_last(), fg, bg) + span_entries(b, ms.last(), fg, bg)
    }
}

/// The math decorations are exactly the decorations of each span: an entry
/// is present when and only when it is among those of some span (a mark over
/// an inline span, a tint on each line of a display span, see
/// [`span_entries`]).
pub proof fn lemma_math_entries_cover(
    b: Seq<u8>,
    ms: Seq<(int, int, MathKind)>,
    fg: Color,
    bg: Color,
    e: (int, int, Decoration),
)
    ensures
        math_entries(b, ms, fg, bg).contains(e) <==> exists|i: int|
            0 <= i < ms.len() && span_entries(b, #[trigger] ms[i], fg, bg).contains(e),
    decreases ms.len(),
{
    if ms.len() > 0 {
        let init = ms.drop_last();
        let last = span_entries(b, ms.last(), fg, bg);
        let head = math_entries(b, init, fg, bg);
        lemma_math_entries_cover(b, init, fg, bg, e);
        assert(math_entries(b, ms, fg, bg) == head + last);
        let all = head + last;
        if all.contains(e) {
            let p = choose|p: int| 0 <= p < all.len() && all[p] == e;
            if p < head.len() {
                assert(head[p] == e);
                let i = choose|i: int| 0 <= i < init.len() && span_entries(b, #[trigger] init[i], fg, bg).contains(e);
                assert(ms[i] == init[i]);
            } else {
                assert(last[p - head.len()] == e);
                assert(ms[ms.len() - 1] == ms.last());
            }
        }
        if exists|i: int| 0 <= i < ms.len() && span_entries(b, #[trigger] ms[i], fg, bg).contains(e) {
            let i = choose|i: int| 0 <= i < ms.len() && span_entries(b, #[trigger] ms[i], fg, bg).contains(e);
            if i < ms.len() - 1 {
                assert(init[i] == ms[i]);
                assert(head.contains(e));
                let p = choose|p: int| 0 <= p < head.len() && head[p] == e;
                assert(all[p] == e);
            } else {
                let q = choose|q: int| 0 <= q < last.len() && last[q] == e;
                assert(all[head.len() + q] == e);
            }
        }
    }
}

/// Foreground of inline math: the theme's accent, or the default violet.
pub open spec fn math_fg(theme: Option<&Theme>) -> Color {
    match theme {
        Some(t) => t.palette.accent,
        None => color_math_fg(),
    }
}

/// Background of math: the theme's code background, or the default tint.
pub open spec fn math_bg(theme: Option<&Theme>) -> Color {
    match theme {
        Some(t) => t.markdown.code_bg,
        None => color_math_bg(),
    }
}

/// Tinted-source fallback view: violet-on-tint monospace marks for inline
/// math, a per-line background tint for block math.
pub fn math_decorations(
    state: &EditorState,
    theme: Option<&Theme>,
    viewport: Option<&std::ops::Range<usize>>,
) -> (res: DecorationSet)
    ensures
        entries_are(
            res.entries@,
            math_entries(
                state.doc.bytes(),
                math_spans_spec(state.doc.bytes(), viewport),
                math_fg(theme),
                math_bg(theme),
            ),
        ),
{
    let fg = match theme {
        Some(t) => t.palette.accent,
        None => Color::rgb(170, 120, 220),
    };
    let bg = match theme {
        Some(t) => t.markdown.code_bg,
        None => Color::rgba(170, 120, 220, 25),
    };
    let b = state.doc.as_str().as_bytes();
    let table = line_start_table(b);
    let n = table.len();
    let spans = math_spans(state, viewport);
    let ghost ms = math_spans_spec(b@, viewport);
    let mut entries: Vec<(std::ops::Range<usize>, Decoration)> = Vec::new();
    let mut k: usize = 0;
    while k < spans.len()
        invariant
            b@ == state.doc.bytes(),
            ms == math_spans_spec(b@, viewport),
            is_line_table(b@, table@),
            n == table@.len(),
            spans@.len() == ms.len(),
            forall|m: int| 0 <= m < spans@.len() ==> span_is(#[trigger] spans@[m], ms[m]),
            k <= spans@.len(),
            entries_are(entries@, math_entries(b@, ms.take(k as int), fg, bg)),
        decreases spans@.len() - k,
    {
        let ghost before = entries@;
        let ghost m = ms[k as int];
        assert(span_is(spans@[k as int], m));
        match spans[k].kind {
            MathKind::Display => {
                let s = spans[k].byte_range.start;
                let e = spans[k].byte_range.end;
                let l0 = line_of_exec(b, &table, s);
                let l1 = line_of_exec(
                    b,
                    &table,
                    if e > 0 {
                        e - 1
                    } else {
                        0
                    },
                );
                let ghost base = math_entries(b@, ms.take(k as int), fg, bg);
                let mut l = l0;
                let stop = if l1 >= l0 {
                    l1 + 1
                } else {
                    l0
                };
                while l < stop
                    invariant
                        b@ == state.doc.bytes(),
                        is_line_table(b@, table@),
                        n == table@.len(),
                        l0 <= l <= stop,
                        stop <= n,
                        stop == if l1 >= l0 {
                            l1 + 1
                        } else {
                            l0 as int
                        },
                        entries_are(
                            entries@,
                            base + Seq::new(
                                (l - l0) as nat,
                                |j: int|
                                    (
                                        line_start(b@, l0 + j),
                                        line_end(b@, l0 + j),
                                        Decoration::Line(LineStyle::spec_tinted(bg)),
                                    ),
                            ),
                        ),
                    decreases stop - l,
                {
                    let ls = line_start_at(b, &table, l);
                    let le = line_end_at(b, &table, l);
                    let ghost prev = base + Seq::new(
                        (l - l0) as nat,
                        |j: int|
                            (
                                line_start(b@, l0 + j),
                                line_end(b@, l0 + j),
                                Decoration::Line(LineStyle::spec_tinted(bg)),
                            ),
                    );
                    entries.push((ls..le, Decoration::Line(LineStyle::tinted(bg))));
                    proof {
                        let next = base + Seq::new(
                            (l + 1 - l0) as nat,
                            |j: int|
                                (
                                    line_start(b@, l0 + j),
                                    line_end(b@, l0 + j),
                                    Decoration::Line(LineStyle::spec_tinted(bg)),
                                ),
                        );
                        assert(next == prev.push(
                            (line_start(b@, l as int), line_end(b@, l as int), Decoration::Line(LineStyle::spec_tinted(bg))),
                        ));
                    }
                    l = l + 1;
                }
                proof {
                    assert(span_entries(b@, m, fg, bg) == Seq::new(
                        (l - l0) as nat,
                        |j: int|
                            (
                                line_start(b@, l0 + j),
                                line_end(b@, l0 + j),
                                Decoration::Line(LineStyle::spec_tinted(bg)),
                            ),
                    ));
                }
            },
            MathKind::Inline => {
                let r = copy_range(&spans[k].byte_range);
                let mark = MarkStyle {
                    bold: false,
                    italic: false,
                    strikethrough: false,
                    underline: false,
                    fg: Some(fg),
                    bg: Some(bg),
                    font_scale: None,
                    monospace: true,
                    atomic: false,
                };
                entries.push((r, Decoration::Mark(mark)));
                proof {
                    assert(entries@ == before.push((spans@[k as int].byte_range, Decoration::Mark(math_mark(fg, bg)))));
                }
            },
        }
        proof {
            let t1 = ms.take(k + 1);
            assert(t1.drop_last() == ms.take(k as int));
            assert(t1.last() == m);
        }
        k = k + 1;
    }
    proof {
        assert(ms.take(spans@.len() as int) == ms);
    }
    DecorationSet::from_entries(entries)
}

} // verus!
