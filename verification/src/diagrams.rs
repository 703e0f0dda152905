//! Diagram code-block detection + decorations (Mermaid, WaveDrom, charts).
//!
//! Detects fenced code blocks tagged ```` ```mermaid ````, ```` ```wavedrom ````
//! and ```` ```chart ````. The span scans ([`mermaid_spans`],
//! [`wavedrom_spans`], [`chart_spans`]) report each fence's byte range and the
//! inner diagram source range so a host can render the block. The
//! `*_decorations` builders are the render-off fallback: a tinted background
//! on every line of each block, fence lines included. All of them share one
//! language-parameterized line scan ([`fences_from`]).

use vstd::prelude::*;
use vstd::string::*;
use vstd::utf8::*;

use crate::decoration::Color;
use crate::decoration::copy_range;
use crate::decoration::Decoration;
use crate::decoration::DecorationSet;
use crate::decoration::LineStyle;
use crate::decoration::Theme;
use crate::document::EditorState;
use crate::document::is_line_table;
use crate::document::lemma_lines;
use crate::document::line_content_end;
use crate::document::line_content_end_at;
use crate::document::line_count;
use crate::document::line_end;
use crate::document::line_end_at;
use crate::document::line_start;
use crate::document::line_start_at;
use crate::document::line_start_table;
use crate::document::line_starts;
use crate::document::viewport_line_range;
use crate::document::lemma_viewport_line_range_bounds;
use crate::document::viewport_lines;
use crate::text::BACKTICK;
use crate::text::eq_ignore_ascii_case;
use crate::text::lemma_ascii_is_boundary;
use crate::text::lemma_trim_range_bounds;
use crate::text::lemma_trim_range_boundary;
use crate::text::lemma_trim_start_bounds;
use crate::text::lemma_ws_char_ends_on_boundary;
use crate::text::range_eq_ignore_ascii_case;
use crate::text::substr;
use crate::text::trim_exec;
use crate::text::trim_range;
use crate::text::trim_start_exec;
use crate::text::trim_start_pos;
use crate::text::triple_backtick_at;
use crate::text::triple_backtick_at_exec;
use crate::text::ws_len_at;
use crate::text::ws_len_at_exec;

verus! {

broadcast use vstd::seq::group_seq_axioms;

/// Default tint of a mermaid block.
pub open spec fn color_mermaid_bg() -> Color {
    Color { r: 120, g: 200, b: 180, a: 28 }
}

/// Default tint of a wavedrom block.
pub open spec fn color_wavedrom_bg() -> Color {
    Color { r: 200, g: 170, b: 120, a: 28 }
}

/// Default tint of a chart block.
pub open spec fn color_chart_bg() -> Color {
    Color { r: 140, g: 170, b: 220, a: 28 }
}

/// A detected ```` ```mermaid ```` fenced block: the full source byte range
/// (fence lines inclusive) and the inner range (the diagram source between the
/// open and close fences).
#[derive(Debug, PartialEq, Eq)]
pub struct MermaidSpan {
    pub byte_range: std::ops::Range<usize>,
    pub inner_range: std::ops::Range<usize>,
}

impl Clone for MermaidSpan {
    fn clone(&self) -> (s: MermaidSpan)
        ensures
            s == *self,
    {
        MermaidSpan { byte_range: copy_range(&self.byte_range), inner_range: copy_range(&self.inner_range) }
    }
}

/// A detected ```` ```wavedrom ```` fenced block — same shape as
/// [`MermaidSpan`].
#[derive(Debug, PartialEq, Eq)]
pub struct WaveDromSpan {
    pub byte_range: std::ops::Range<usize>,
    pub inner_range: std::ops::Range<usize>,
}

impl Clone for WaveDromSpan {
    fn clone(&self) -> (s: WaveDromSpan)
        ensures
            s == *self,
    {
        WaveDromSpan { byte_range: copy_range(&self.byte_range), inner_range: copy_range(&self.inner_range) }
    }
}

/// A detected ```` ```chart ```` fenced block — same shape as
/// [`MermaidSpan`]; the inner source is the chart block body.
#[derive(Debug, PartialEq, Eq)]
pub struct ChartSpan {
    pub byte_range: std::ops::Range<usize>,
    pub inner_range: std::ops::Range<usize>,
}

impl Clone for ChartSpan {
    fn clone(&self) -> (s: ChartSpan)
        ensures
            s == *self,
    {
        ChartSpan { byte_range: copy_range(&self.byte_range), inner_range: copy_range(&self.inner_range) }
    }
}

/// The bytes of `mermaid`.
pub open spec fn lang_mermaid() -> Seq<u8> {
    seq![109u8, 101u8, 114u8, 109u8, 97u8, 105u8, 100u8]
}

/// The bytes of `wavedrom`.
pub open spec fn lang_wavedrom() -> Seq<u8> {
    seq![119u8, 97u8, 118u8, 101u8, 100u8, 114u8, 111u8, 109u8]
}

/// The bytes of `chart`.
pub open spec fn lang_chart() -> Seq<u8> {
    seq![99u8, 104u8, 97u8, 114u8, 116u8]
}

fn mermaid_lang() -> (v: Vec<u8>)
    ensures
        v@ == lang_mermaid(),
{
    let v: Vec<u8> = vec![109u8, 101u8, 114u8, 109u8, 97u8, 105u8, 100u8];
    assert(v@ == lang_mermaid());
    v
}

fn wavedrom_lang() -> (v: Vec<u8>)
    ensures
        v@ == lang_wavedrom(),
{
    let v: Vec<u8> = vec![119u8, 97u8, 118u8, 101u8, 100u8, 114u8, 111u8, 109u8];
    assert(v@ == lang_wavedrom());
    v
}

fn chart_lang() -> (v: Vec<u8>)
    ensures
        v@ == lang_chart(),
{
    let v: Vec<u8> = vec![99u8, 104u8, 97u8, 114u8, 116u8];
    assert(v@ == lang_chart());
    v
}

/// The line content `b[s..e]` opens a ```` ```<lang> ```` fence: after
/// leading whitespace come three backticks, then the info string, which
/// (trimmed) equals `lang` up to ASCII case.
pub open spec fn fence_open_line(b: Seq<u8>, s: int, e: int, lang: Seq<u8>) -> bool {
    let t = trim_start_pos(b, s, e);
    triple_backtick_at(b, t, e) && {
        let r = trim_range(b, t + 3, e);
        eq_ignore_ascii_case(b.subrange(r.0, r.1), lang)
    }
}

/// The line content `b[s..e]` is a bare closing fence: three backticks after
/// leading whitespace and nothing but whitespace after them.
pub open spec fn fence_close_line(b: Seq<u8>, s: int, e: int) -> bool {
    let t = trim_start_pos(b, s, e);
    triple_backtick_at(b, t, e) && trim_range(b, t + 3, e).0 == trim_range(b, t + 3, e).1
}

/// Line `l` of `b` opens a `lang` fence.
pub open spec fn opens_fence(b: Seq<u8>, l: int, lang: Seq<u8>) -> bool {
    fence_open_line(b, line_start(b, l), line_content_end(b, l), lang)
}

/// Line `l` of `b` is a bare closing fence.
pub open spec fn closes_fence(b: Seq<u8>, l: int) -> bool {
    fence_close_line(b, line_start(b, l), line_content_end(b, l))
}

/// The first closing-fence line at or after line `p`, or -1 when there is
/// none.
pub open spec fn first_close_from(b: Seq<u8>, p: int) -> int
    decreases line_count(b) - p,
{
    if p < 0 || p >= line_count(b) {
        -1
    } else if closes_fence(b, p) {
        p
    } else {
        first_close_from(b, p + 1)
    }
}

/// The line closing a fence opened on line `open`: the first closing fence
/// below it, or the last line of the document when it is unterminated.
pub open spec fn close_line_of(b: Seq<u8>, open: int) -> int {
    let c = first_close_from(b, open + 1);
    if c >= 0 {
        c
    } else {
        line_count(b) - 1
    }
}

/// The `lang` fences whose opening line lies in `line..end`, as
/// `(open_line, close_line)` pairs in document order. The scan resumes on the
/// line after each close fence, so a fence never opens inside another one.
pub open spec fn fences_from(b: Seq<u8>, lang: Seq<u8>, line: int, end: int) -> Seq<(int, int)>
    decreases end - line,
{
    if line < 0 || line >= end {
        seq![]
    } else if opens_fence(b, line, lang) {
        let c = close_line_of(b, line);
        if c < line {
            seq![]
        } else if c + 1 >= end {
            seq![(line, c)]
        } else {
            seq![(line, c)] + fences_from(b, lang, c + 1, end)
        }
    } else {
        fences_from(b, lang, line + 1, end)
    }
}

/// The `lang` fences that open on a line the viewport covers.
pub open spec fn scan_fences_spec(
    b: Seq<u8>,
    viewport: Option<&std::ops::Range<usize>>,
    lang: Seq<u8>,
) -> Seq<(int, int)> {
    let r = viewport_line_range(b, viewport);
    fences_from(b, lang, r.0, r.1)
}

/// Byte extents of a fence `(open_line, close_line)`: the block from the start
/// of the open line to the end of the close line, and the inner source from
/// the line after the opener up to the start of the close line (empty when the
/// block has no inner line).
pub open spec fn fence_extent(b: Seq<u8>, f: (int, int)) -> (int, int, int, int) {
    let block_start = line_start(b, f.0);
    let block_end = line_end(b, f.1);
    let after_open = line_end(b, f.0);
    let inner_start = if after_open < block_end {
        after_open
    } else {
        block_end
    };
    let inner_end = if f.1 > f.0 {
        line_start(b, f.1)
    } else {
        inner_start
    };
    (block_start, block_end, inner_start, if inner_end < inner_start {
        inner_start
    } else {
        inner_end
    })
}

proof fn lemma_first_close_bounds(b: Seq<u8>, p: int)
    requires
        p >= 0,
    ensures
        first_close_from(b, p) == -1 || (p <= first_close_from(b, p) < line_count(b)
            && closes_fence(b, first_close_from(b, p))),
    decreases line_count(b) - p,
{
    if p < line_count(b) && !closes_fence(b, p) {
        lemma_first_close_bounds(b, p + 1);
    }
}

proof fn lemma_fences_from_shape(b: Seq<u8>, lang: Seq<u8>, line: int, end: int)
    requires
        0 <= line,
        end <= line_count(b),
    ensures
        forall|i: int|
            0 <= i < fences_from(b, lang, line, end).len() ==> line <= (
            #[trigger] fences_from(b, lang, line, end)[i]).0 <= fences_from(b, lang, line, end)[i].1
                < line_count(b),
        forall|i: int, j: int|
            0 <= i < j < fences_from(b, lang, line, end).len() ==> (
            #[trigger] fences_from(b, lang, line, end)[i]).1 < (
            #[trigger] fences_from(b, lang, line, end)[j]).0,
    decreases end - line,
{
    let all = fences_from(b, lang, line, end);
    if line < end {
        if opens_fence(b, line, lang) {
            let c = close_line_of(b, line);
            lemma_first_close_bounds(b, line + 1);
            assert(line <= c < line_count(b));
            if c + 1 < end {
                lemma_fences_from_shape(b, lang, c + 1, end);
                let rest = fences_from(b, lang, c + 1, end);
                assert(all == seq![(line, c)] + rest);
                assert forall|i: int| 0 <= i < all.len() implies line <= (#[trigger] all[i]).0
                    <= all[i].1 < line_count(b) by {
                    if i > 0 {
                        assert(all[i] == rest[i - 1]);
                    }
                }
                assert forall|i: int, j: int| 0 <= i < j < all.len() implies (#[trigger] all[i]).1 < (
                #[trigger] all[j]).0 by {
                    assert(all[j] == rest[j - 1]);
                    if i > 0 {
                        assert(all[i] == rest[i - 1]);
                    }
                }
            } else {
                assert(all == seq![(line, c)]);
            }
        } else {
            lemma_fences_from_shape(b, lang, line + 1, end);
            assert(all == fences_from(b, lang, line + 1, end));
        }
    } else {
        assert(all.len() == 0);
    }
}

/// The blocks a scan reports come in document order and never overlap, and
/// each block's inner source lies within the block:
/// `block_start <= inner_start <= inner_end <= block_end <= len`, and a block
/// ends no later than the next one starts.
pub proof fn lemma_fence_extents_ordered(
    b: Seq<u8>,
    viewport: Option<&std::ops::Range<usize>>,
    lang: Seq<u8>,
)
    ensures
        forall|i: int|
            0 <= i < scan_fences_spec(b, viewport, lang).len() ==> {
                let e = fence_extent(b, #[trigger] scan_fences_spec(b, viewport, lang)[i]);
                0 <= e.0 <= e.2 <= e.3 <= e.1 <= b.len()
            },
        forall|i: int, j: int|
            0 <= i < j < scan_fences_spec(b, viewport, lang).len() ==> fence_extent(
                b,
                #[trigger] scan_fences_spec(b, viewport, lang)[i],
            ).1 <= fence_extent(b, #[trigger] scan_fences_spec(b, viewport, lang)[j]).0,
{
    let r = viewport_line_range(b, viewport);
    lemma_lines(b);
    lemma_viewport_line_range_bounds(b, viewport);
    lemma_fences_from_shape(b, lang, r.0, r.1);
    let fs = scan_fences_spec(b, viewport, lang);
    assert forall|i: int, j: int| 0 <= i < j < fs.len() implies fence_extent(b, #[trigger] fs[i]).1
        <= fence_extent(b, #[trigger] fs[j]).0 by {
        let ci = fs[i].1;
        let oj = fs[j].0;
        assert(line_end(b, ci) == line_start(b, ci + 1));
        if ci + 1 < oj {
            assert(line_starts(b)[ci + 1] < line_starts(b)[oj]);
        }
    }
}

/// The fence closing line: a fence opened on line `open` closes on the first
/// bare closing-fence line below it, or, when there is none, runs to the
/// last line of the document.
pub proof fn lemma_close_line_first(b: Seq<u8>, open: int)
    requires
        0 <= open < line_count(b),
    ensures
        open <= close_line_of(b, open) < line_count(b),
        forall|k: int| open < k < close_line_of(b, open) ==> !closes_fence(b, k),
        (close_line_of(b, open) > open && closes_fence(b, close_line_of(b, open))) || (close_line_of(b, open)
            == line_count(b) - 1 && forall|k: int| open < k < line_count(b) ==> !closes_fence(b, k)),
{
    lemma_first_close_bounds(b, open + 1);
    lemma_first_close_skips(b, open + 1);
}

proof fn lemma_first_close_skips(b: Seq<u8>, p: int)
    requires
        p >= 0,
    ensures
        first_close_from(b, p) >= 0 ==> forall|k: int| p <= k < first_close_from(b, p) ==> !closes_fence(b, k),
        first_close_from(b, p) < 0 ==> forall|k: int| p <= k < line_count(b) ==> !closes_fence(b, k),
    decreases line_count(b) - p,
{
    if p < line_count(b) && !closes_fence(b, p) {
        lemma_first_close_skips(b, p + 1);
    }
}

#[verifier::spinoff_prover]
#[verifier::rlimit(40)]
proof fn lemma_fences_from_law(b: Seq<u8>, lang: Seq<u8>, line: int, end: int)
    requires
        0 <= line,
        end <= line_count(b),
    ensures
        forall|i: int|
            0 <= i < fences_from(b, lang, line, end).len() ==> {
                let f = #[trigger] fences_from(b, lang, line, end)[i];
                &&& line <= f.0 < end
                &&& opens_fence(b, f.0, lang)
                &&& f.1 == close_line_of(b, f.0)
            },
        forall|l: int|
            line <= l < end && opens_fence(b, l, lang) ==> exists|i: int|
                0 <= i < fences_from(b, lang, line, end).len() && (#[trigger] fences_from(b, lang, line, end)[i]).0
                    <= l <= fences_from(b, lang, line, end)[i].1,
    decreases end - line,
{
    let all = fences_from(b, lang, line, end);
    if line < end {
        if opens_fence(b, line, lang) {
            let c = close_line_of(b, line);
            lemma_close_line_first(b, line);
            if c + 1 < end {
                lemma_fences_from_law(b, lang, c + 1, end);
                let rest = fences_from(b, lang, c + 1, end);
                assert(all == seq![(line, c)] + rest);
                assert forall|i: int| 0 <= i < all.len() implies {
                    let f = #[trigger] all[i];
                    &&& line <= f.0 < end
                    &&& opens_fence(b, f.0, lang)
                    &&& f.1 == close_line_of(b, f.0)
                } by {
                    if i > 0 {
                        assert(all[i] == rest[i - 1]);
                    }
                }
                assert forall|l: int| line <= l < end && opens_fence(b, l, lang) implies exists|i: int|
                    0 <= i < all.len() && (#[trigger] all[i]).0 <= l <= all[i].1 by {
                    if l <= c {
                        assert(all[0] == (line, c));
                    } else {
                        let i = choose|i: int| 0 <= i < rest.len() && (#[trigger] rest[i]).0 <= l <= rest[i].1;
                        assert(all[i + 1] == rest[i]);
                    }
                }
            } else {
                assert(all == seq![(line, c)]);
                assert forall|l: int| line <= l < end && opens_fence(b, l, lang) implies exists|i: int|
                    0 <= i < all.len() && (#[trigger] all[i]).0 <= l <= all[i].1 by {
                    assert(all[0] == (line, c));
                }
            }
        } else {
            lemma_fences_from_law(b, lang, line + 1, end);
            assert(all == fences_from(b, lang, line + 1, end));
        }
    }
}

/// The fence scan: every reported fence opens with a `lang` fence line the
/// viewport covers and closes on the first bare closing-fence line below it
/// (or on the last line when it is unterminated, see
/// [`lemma_close_line_first`]), even when that line lies past the viewport;
/// each fence closes before the next one opens; and no opener the viewport
/// covers is missed: each lies on a line of some reported fence.
#[verifier::spinoff_prover]
#[verifier::rlimit(40)]
pub proof fn lemma_fence_scan(b: Seq<u8>, viewport: Option<&std::ops::Range<usize>>, lang: Seq<u8>)
    ensures
        forall|i: int|
            0 <= i < scan_fences_spec(b, viewport, lang).len() ==> {
                let f = #[trigger] scan_fences_spec(b, viewport, lang)[i];
                &&& viewport_line_range(b, viewport).0 <= f.0 < viewport_line_range(b, viewport).1
                &&& opens_fence(b, f.0, lang)
                &&& f.1 == close_line_of(b, f.0)
                &&& f.0 <= f.1 < line_count(b)
            },
        forall|i: int, j: int|
            0 <= i < j < scan_fences_spec(b, viewport, lang).len() ==> (#[trigger] scan_fences_spec(
                b,
                viewport,
                lang,
            )[i]).1 < (#[trigger] scan_fences_spec(b, viewport, lang)[j]).0,
        forall|l: int|
            viewport_line_range(b, viewport).0 <= l < viewport_line_range(b, viewport).1 && opens_fence(
                b,
                l,
                lang,
            ) ==> exists|i: int|
                0 <= i < scan_fences_spec(b, viewport, lang).len() && (#[trigger] scan_fences_spec(
                    b,
                    viewport,
                    lang,
                )[i]).0 <= l <= scan_fences_spec(b, viewport, lang)[i].1,
{
    let r = viewport_line_range(b, viewport);
    lemma_viewport_line_range_bounds(b, viewport);
    lemma_fences_from_law(b, lang, r.0, r.1);
    lemma_fences_from_shape(b, lang, r.0, r.1);
    let fs = scan_fences_spec(b, viewport, lang);
    assert(fs == fences_from(b, lang, r.0, r.1));
    assert forall|l: int| r.0 <= l < r.1 && opens_fence(b, l, lang) implies exists|i: int|
        0 <= i < fs.len() && (#[trigger] fs[i]).0 <= l <= fs[i].1 by {
        let i = choose|i: int|
            0 <= i < fences_from(b, lang, r.0, r.1).len() && (#[trigger] fences_from(b, lang, r.0, r.1)[i]).0
                <= l <= fences_from(b, lang, r.0, r.1)[i].1;
        assert(fs[i].0 <= l);
    }
}

/// A line never opens fences of two different diagram languages, and a
/// one-line fence never reads as two of them, so mermaid, wavedrom and chart
/// blocks are never mistaken for one another.
pub proof fn lemma_diagram_langs_exclusive(b: Seq<u8>, l: int)
    ensures
        !(opens_fence(b, l, lang_mermaid()) && opens_fence(b, l, lang_wavedrom())),
        !(opens_fence(b, l, lang_mermaid()) && opens_fence(b, l, lang_chart())),
        !(opens_fence(b, l, lang_wavedrom()) && opens_fence(b, l, lang_chart())),
        !(single_line_fence_range(b, lang_mermaid()) is Some && single_line_fence_range(
            b,
            lang_wavedrom(),
        ) is Some),
{
}

/// Exec form of [`fence_open_line`] for line `l`.
fn is_lang_fence_open(b: &[u8], table: &Vec<usize>, l: usize, lang: &[u8]) -> (r: bool)
    requires
        is_line_table(b@, table@),
        l < table@.len(),
    ensures
        r == opens_fence(b@, l as int, lang@),
{
    proof {
        lemma_lines(b@);
    }
    let s = line_start_at(b, table, l);
    let e = line_content_end_at(b, table, l);
    let t = trim_start_exec(b, s, e);
    if !triple_backtick_at_exec(b, t, e) {
        return false;
    }
    let (rs, re) = trim_exec(b, t + 3, e);
    range_eq_ignore_ascii_case(b, rs, re, lang)
}

/// Exec form of [`fence_close_line`] for line `l`.
fn is_fence_close(b: &[u8], table: &Vec<usize>, l: usize) -> (r: bool)
    requires
        is_line_table(b@, table@),
        l < table@.len(),
    ensures
        r == closes_fence(b@, l as int),
{
    proof {
        lemma_lines(b@);
    }
    let s = line_start_at(b, table, l);
    let e = line_content_end_at(b, table, l);
    let t = trim_start_exec(b, s, e);
    if !triple_backtick_at_exec(b, t, e) {
        return false;
    }
    let (rs, re) = trim_exec(b, t + 3, e);
    rs == re
}

/// The line closing the fence opened on line `open`.
fn find_close_line(b: &[u8], table: &Vec<usize>, open: usize) -> (c: usize)
    requires
        is_line_table(b@, table@),
        open < table@.len(),
    ensures
        c as int == close_line_of(b@, open as int),
        open <= c < table@.len(),
{
    proof {
        lemma_first_close_bounds(b@, open + 1);
    }
    let n = table.len();
    let mut probe = open + 1;
    while probe < n
        invariant
            is_line_table(b@, table@),
            n == table@.len(),
            open < probe <= table@.len(),
            first_close_from(b@, probe as int) == first_close_from(b@, open + 1),
        decreases table@.len() - probe,
    {
        if is_fence_close(b, table, probe) {
            return probe;
        }
        probe = probe + 1;
    }
    n - 1
}

/// `fs` holds line pairs `(open, close)` in increasing, non-overlapping
/// order, all before line `line`.
pub open spec fn ordered_below(fs: Seq<(usize, usize)>, line: int) -> bool {
    &&& forall|i: int| 0 <= i < fs.len() ==> (#[trigger] fs[i]).0 <= fs[i].1 < line
    &&& forall|i: int, j: int| 0 <= i < j < fs.len() ==> (#[trigger] fs[i]).1 < (#[trigger] fs[j]).0
}

proof fn lemma_ordered_below_push(fs: Seq<(usize, usize)>, line: int, c: int)
    requires
        ordered_below(fs, line),
        0 <= line <= c <= usize::MAX,
    ensures
        ordered_below(fs.push((line as usize, c as usize)), c + 1),
{
    let gs = fs.push((line as usize, c as usize));
    assert forall|i: int| 0 <= i < gs.len() implies (#[trigger] gs[i]).0 <= gs[i].1 < c + 1 by {
        if i < fs.len() {
            assert(gs[i] == fs[i]);
        }
    }
    assert forall|i: int, j: int| 0 <= i < j < gs.len() implies (#[trigger] gs[i]).1 < (#[trigger] gs[j]).0 by {
        assert(gs[i] == fs[i]);
        assert(fs[i].0 <= fs[i].1 < line);
        if j < fs.len() {
            assert(gs[j] == fs[j]);
        }
    }
}

/// Scan the document (viewport-scoped) for `lang` fences, returning each
/// fence's open/close line indices. The close fence is searched across the
/// whole document, so a block that opens on screen but closes below it is
/// still found.
fn scan_fences(b: &[u8], table: &Vec<usize>, viewport: Option<&std::ops::Range<usize>>, lang: &[u8]) -> (fences: Vec<(usize, usize)>)
    requires
        is_line_table(b@, table@),
    ensures
        fences@.len() == scan_fences_spec(b@, viewport, lang@).len(),
        forall|i: int|
            0 <= i < fences@.len() ==> (fences@[i].0 as int, fences@[i].1 as int)
                == #[trigger] scan_fences_spec(b@, viewport, lang@)[i],
        forall|i: int| 0 <= i < fences@.len() ==> #[trigger] fences@[i].0 <= fences@[i].1 < table@.len(),
        forall|i: int, j: int| 0 <= i < j < fences@.len() ==> fences@[i].1 < fences@[j].0,
{
    let (first, end) = viewport_lines(b, table, viewport);
    let n = table.len();
    let mut fences: Vec<(usize, usize)> = Vec::new();
    let ghost mut acc: Seq<(int, int)> = seq![];
    let mut line = first;
    while line < end
        invariant
            is_line_table(b@, table@),
            n == table@.len(),
            line <= table@.len(),
            end <= table@.len(),
            (first as int, end as int) == viewport_line_range(b@, viewport),
            acc + fences_from(b@, lang@, line as int, end as int) == fences_from(
                b@,
                lang@,
                first as int,
                end as int,
            ),
            fences@.len() == acc.len(),
            forall|i: int|
                0 <= i < fences@.len() ==> (fences@[i].0 as int, fences@[i].1 as int)
                    == #[trigger] acc[i],
            ordered_below(fences@, line as int),
        decreases n - line,
    {
        if is_lang_fence_open(b, table, line, lang) {
            let c = find_close_line(b, table, line);
            proof {
                assert(fences_from(b@, lang@, line as int, end as int) == seq![(line as int, c as int)]
                    + fences_from(b@, lang@, c + 1, end as int));
                acc = acc.push((line as int, c as int));
            }
            let ghost old_fences = fences@;
            fences.push((line, c));
            proof {
                lemma_ordered_below_push(old_fences, line as int, c as int);
                assert(fences@ == old_fences.push((line, c)));
            }
            line = c + 1;
        } else {
            line = line + 1;
        }
    }
    proof {
        assert(fences_from(b@, lang@, line as int, end as int) == Seq::<(int, int)>::empty());
        assert(acc == fences_from(b@, lang@, first as int, end as int));
    }
    fences
}

/// Exec form of [`fence_extent`].
fn fence_extent_exec(b: &[u8], table: &Vec<usize>, f: (usize, usize)) -> (r: (usize, usize, usize, usize))
    requires
        is_line_table(b@, table@),
        f.0 <= f.1 < table@.len(),
    ensures
        (r.0 as int, r.1 as int, r.2 as int, r.3 as int) == fence_extent(b@, (f.0 as int, f.1 as int)),
{
    let block_start = line_start_at(b, table, f.0);
    let block_end = line_end_at(b, table, f.1);
    let after_open = line_end_at(b, table, f.0);
    let inner_start = if after_open < block_end {
        after_open
    } else {
        block_end
    };
    let inner_end = if f.1 > f.0 {
        line_start_at(b, table, f.1)
    } else {
        inner_start
    };
    (block_start, block_end, inner_start, if inner_end < inner_start {
        inner_start
    } else {
        inner_end
    })
}

/// Scan for `lang` fences and report each as its byte extents
/// `(block_start, block_end, inner_start, inner_end)`.
fn fence_spans(state: &EditorState, viewport: Option<&std::ops::Range<usize>>, lang: &[u8]) -> (v: Vec<
    (usize, usize, usize, usize),
>)
    ensures
        v@.len() == scan_fences_spec(state.doc.bytes(), viewport, lang@).len(),
        forall|i: int|
            0 <= i < v@.len() ==> (v@[i].0 as int, v@[i].1 as int, v@[i].2 as int, v@[i].3 as int)
                == fence_extent(
                state.doc.bytes(),
                #[trigger] scan_fences_spec(state.doc.bytes(), viewport, lang@)[i],
            ),
{
    let b = state.doc.as_str().as_bytes();
    let table = line_start_table(b);
    let fences = scan_fences(b, &table, viewport, lang);
    let mut v: Vec<(usize, usize, usize, usize)> = Vec::new();
    let mut i: usize = 0;
    while i < fences.len()
        invariant
            b@ == state.doc.bytes(),
            is_line_table(b@, table@),
            fences@.len() == scan_fences_spec(b@, viewport, lang@).len(),
            forall|k: int|
                0 <= k < fences@.len() ==> (fences@[k].0 as int, fences@[k].1 as int)
                    == #[trigger] scan_fences_spec(b@, viewport, lang@)[k],
            forall|k: int| 0 <= k < fences@.len() ==> #[trigger] fences@[k].0 <= fences@[k].1 < table@.len(),
            i <= fences@.len(),
            v@.len() == i,
            forall|k: int|
                0 <= k < i ==> (v@[k].0 as int, v@[k].1 as int, v@[k].2 as int, v@[k].3 as int)
                    == fence_extent(b@, #[trigger] scan_fences_spec(b@, viewport, lang@)[k]),
        decreases fences@.len() - i,
    {
        let f = fences[i];
        assert(fences@[i as int].0 <= fences@[i as int].1 < table@.len());
        let e = fence_extent_exec(b, &table, f);
        assert((f.0 as int, f.1 as int) == scan_fences_spec(b@, viewport, lang@)[i as int]);
        v.push(e);
        i = i + 1;
    }
    v
}

/// Scan the document (viewport-scoped) for ```` ```mermaid ```` fenced blocks,
/// reporting each fence's byte range and the inner diagram source range.
pub fn mermaid_spans(state: &EditorState, viewport: Option<&std::ops::Range<usize>>) -> (res: Vec<
    MermaidSpan,
>)
    ensures
        res@.len() == scan_fences_spec(state.doc.bytes(), viewport, lang_mermaid()).len(),
        forall|i: int|
            0 <= i < res@.len() ==> {
                let e = fence_extent(
                    state.doc.bytes(),
                    #[trigger] scan_fences_spec(state.doc.bytes(), viewport, lang_mermaid())[i],
                );
                &&& res@[i].byte_range.start == e.0
                &&& res@[i].byte_range.end == e.1
                &&& res@[i].inner_range.start == e.2
                &&& res@[i].inner_range.end == e.3
            },
{
    let lang = mermaid_lang();
    let v = fence_spans(state, viewport, lang.as_slice());
    let mut res: Vec<MermaidSpan> = Vec::new();
    let mut i: usize = 0;
    while i < v.len()
        invariant
            lang@ == lang_mermaid(),
            v@.len() == scan_fences_spec(state.doc.bytes(), viewport, lang@).len(),
            forall|k: int|
                0 <= k < v@.len() ==> (v@[k].0 as int, v@[k].1 as int, v@[k].2 as int, v@[k].3 as int)
                    == fence_extent(
                    state.doc.bytes(),
                    #[trigger] scan_fences_spec(state.doc.bytes(), viewport, lang@)[k],
                ),
            i <= v@.len(),
            res@.len() == i,
            forall|k: int|
                0 <= k < i ==> {
                    let e = fence_extent(
                        state.doc.bytes(),
                        #[trigger] scan_fences_spec(state.doc.bytes(), viewport, lang@)[k],
                    );
                    &&& res@[k].byte_range.start == e.0
                    &&& res@[k].byte_range.end == e.1
                    &&& res@[k].inner_range.start == e.2
                    &&& res@[k].inner_range.end == e.3
                },
        decreases v@.len() - i,
    {
        let e = v[i];
        assert((e.0 as int, e.1 as int, e.2 as int, e.3 as int) == fence_extent(
            state.doc.bytes(),
            scan_fences_spec(state.doc.bytes(), viewport, lang@)[i as int],
        ));
        res.push(MermaidSpan { byte_range: e.0..e.1, inner_range: e.2..e.3 });
        i = i + 1;
    }
    res
}

/// Scan the document (viewport-scoped) for ```` ```wavedrom ```` fenced blocks,
/// reporting each fence's byte range and the inner WaveJSON source range.
pub fn wavedrom_spans(state: &EditorState, viewport: Option<&std::ops::Range<usize>>) -> (res: Vec<
    WaveDromSpan,
>)
    ensures
        res@.len() == scan_fences_spec(state.doc.bytes(), viewport, lang_wavedrom()).len(),
        forall|i: int|
            0 <= i < res@.len() ==> {
                let e = fence_extent(
                    state.doc.bytes(),
                    #[trigger] scan_fences_spec(state.doc.bytes(), viewport, lang_wavedrom())[i],
                );
                &&& res@[i].byte_range.start == e.0
                &&& res@[i].byte_range.end == e.1
                &&& res@[i].inner_range.start == e.2
                &&& res@[i].inner_range.end == e.3
            },
{
    let lang = wavedrom_lang();
    let v = fence_spans(state, viewport, lang.as_slice());
    let mut res: Vec<WaveDromSpan> = Vec::new();
    let mut i: usize = 0;
    while i < v.len()
        invariant
            lang@ == lang_wavedrom(),
            v@.len() == scan_fences_spec(state.doc.bytes(), viewport, lang@).len(),
            forall|k: int|
                0 <= k < v@.len() ==> (v@[k].0 as int, v@[k].1 as int, v@[k].2 as int, v@[k].3 as int)
                    == fence_extent(
                    state.doc.bytes(),
                    #[trigger] scan_fences_spec(state.doc.bytes(), viewport, lang@)[k],
                ),
            i <= v@.len(),
            res@.len() == i,
            forall|k: int|
                0 <= k < i ==> {
                    let e = fence_extent(
                        state.doc.bytes(),
                        #[trigger] scan_fences_spec(state.doc.bytes(), viewport, lang@)[k],
                    );
                    &&& res@[k].byte_range.start == e.0
                    &&& res@[k].byte_range.end == e.1
                    &&& res@[k].inner_range.start == e.2
                    &&& res@[k].inner_range.end == e.3
                },
        decreases v@.len() - i,
    {
        let e = v[i];
        assert((e.0 as int, e.1 as int, e.2 as int, e.3 as int) == fence_extent(
            state.doc.bytes(),
            scan_fences_spec(state.doc.bytes(), viewport, lang@)[i as int],
        ));
        res.push(WaveDromSpan { byte_range: e.0..e.1, inner_range: e.2..e.3 });
        i = i + 1;
    }
    res
}

/// Scan the document (viewport-scoped) for ```` ```chart ```` fenced blocks,
/// reporting each fence's byte range and the inner chart-block source range
/// (the YAML config plus an optional `---` line and inline CSV).
pub fn chart_spans(state: &EditorState, viewport: Option<&std::ops::Range<usize>>) -> (res: Vec<
    ChartSpan,
>)
    ensures
        res@.len() == scan_fences_spec(state.doc.bytes(), viewport, lang_chart()).len(),
        forall|i: int|
            0 <= i < res@.len() ==> {
                let e = fence_extent(
                    state.doc.bytes(),
                    #[trigger] scan_fences_spec(state.doc.bytes(), viewport, lang_chart())[i],
                );
                &&& res@[i].byte_range.start == e.0
                &&& res@[i].byte_range.end == e.1
                &&& res@[i].inner_range.start == e.2
                &&& res@[i].inner_range.end == e.3
            },
{
    let lang = chart_lang();
    let v = fence_spans(state, viewport, lang.as_slice());
    let mut res: Vec<ChartSpan> = Vec::new();
    let mut i: usize = 0;
    while i < v.len()
        invariant
            lang@ == lang_chart(),
            v@.len() == scan_fences_spec(state.doc.bytes(), viewport, lang@).len(),
            forall|k: int|
                0 <= k < v@.len() ==> (v@[k].0 as int, v@[k].1 as int, v@[k].2 as int, v@[k].3 as int)
                    == fence_extent(
                    state.doc.bytes(),
                    #[trigger] scan_fences_spec(state.doc.bytes(), viewport, lang@)[k],
                ),
            i <= v@.len(),
            res@.len() == i,
            forall|k: int|
                0 <= k < i ==> {
                    let e = fence_extent(
                        state.doc.bytes(),
                        #[trigger] scan_fences_spec(state.doc.bytes(), viewport, lang@)[k],
                    );
                    &&& res@[k].byte_range.start == e.0
                    &&& res@[k].byte_range.end == e.1
                    &&& res@[k].inner_range.start == e.2
                    &&& res@[k].inner_range.end == e.3
                },
        decreases v@.len() - i,
    {
        let e = v[i];
        assert((e.0 as int, e.1 as int, e.2 as int, e.3 as int) == fence_extent(
            state.doc.bytes(),
            scan_fences_spec(state.doc.bytes(), viewport, lang@)[i as int],
        ));
        res.push(ChartSpan { byte_range: e.0..e.1, inner_range: e.2..e.3 });
        i = i + 1;
    }
    res
}

/// First position of `b[i..hi]` where a whitespace character starts, or `hi`
/// when there is none (`str::find(char::is_whitespace)` on a UTF-8 range).
pub open spec fn first_ws_from(b: Seq<u8>, i: int, hi: int) -> int
    decreases hi - i,
{
    if i >= hi {
        hi
    } else if ws_len_at(b, i, hi) > 0 {
        i
    } else {
        first_ws_from(b, i + 1, hi)
    }
}

/// The byte range of the inner source of a one-line fence
/// `` ```lang <source>``` `` that fills all of `b` once trimmed, or `None`.
/// The info string is the run up to the first whitespace character after the
/// opening backticks and must equal `lang` up to ASCII case; the source is
/// the rest up to the closing backticks with that single separating
/// whitespace character dropped, and must not be blank.
pub open spec fn single_line_fence_range(b: Seq<u8>, lang: Seq<u8>) -> Option<(int, int)> {
    let t = trim_range(b, 0, b.len() as int);
    if !(triple_backtick_at(b, t.0, t.1) && t.1 - 3 >= t.0 + 3 && triple_backtick_at(b, t.1 - 3, t.1)) {
        None
    } else {
        let lo = t.0 + 3;
        let hi = t.1 - 3;
        let p = first_ws_from(b, lo, hi);
        let blank = trim_range(b, p, hi);
        if eq_ignore_ascii_case(b.subrange(lo, p), lang) && blank.0 < blank.1 {
            Some((p + ws_len_at(b, p, hi), hi))
        } else {
            None
        }
    }
}

proof fn lemma_first_ws_from(b: Seq<u8>, i: int, hi: int)
    requires
        i <= hi,
    ensures
        i <= first_ws_from(b, i, hi) <= hi,
        first_ws_from(b, i, hi) == hi || ws_len_at(b, first_ws_from(b, i, hi), hi) > 0,
    decreases hi - i,
{
    if i < hi && ws_len_at(b, i, hi) == 0 {
        lemma_first_ws_from(b, i + 1, hi);
    }
}

/// Exec form of [`first_ws_from`].
fn first_ws_exec(b: &[u8], lo: usize, hi: usize) -> (p: usize)
    requires
        lo <= hi <= b@.len(),
    ensures
        p as int == first_ws_from(b@, lo as int, hi as int),
{
    let mut p = lo;
    while p < hi
        invariant
            lo <= p <= hi <= b@.len(),
            first_ws_from(b@, p as int, hi as int) == first_ws_from(b@, lo as int, hi as int),
        decreases hi - p,
    {
        if ws_len_at_exec(b, p, hi) > 0 {
            return p;
        }
        p = p + 1;
    }
    p
}

/// The inner source of a one-line `lang` fence filling the whole trimmed
/// `text` (see [`single_line_fence_range`]), or `None`.
fn single_line_fence_body<'a>(text: &'a str, lang: &[u8]) -> (r: Option<&'a str>)
    ensures
        match single_line_fence_range(text.spec_bytes(), lang@) {
            Some(rg) => r is Some && r->0.spec_bytes() == text.spec_bytes().subrange(rg.0, rg.1),
            None => r is None,
        },
{
    let b = text.as_bytes();
    let n = b.len();
    proof {
        encode_utf8_valid_utf8(text@);
        is_char_boundary_start_end_of_seq(b@);
        lemma_trim_range_bounds(b@, 0, n as int);
    }
    let (ts, te) = trim_exec(b, 0, n);
    if !(triple_backtick_at_exec(b, ts, te) && te - ts >= 6 && triple_backtick_at_exec(b, te - 3, te)) {
        return None;
    }
    let lo = ts + 3;
    let hi = te - 3;
    let p = first_ws_exec(b, lo, hi);
    proof {
        lemma_first_ws_from(b@, lo as int, hi as int);
        lemma_ascii_is_boundary(b@, hi as int);
        if p < hi {
            is_char_boundary_iff_not_is_continuation_byte(b@, p as int);
        }
        lemma_trim_range_bounds(b@, p as int, hi as int);
        lemma_trim_range_boundary(b@, p as int, hi as int);
    }
    if !range_eq_ignore_ascii_case(b, lo, p, lang) {
        return None;
    }
    let (bs, be) = trim_exec(b, p, hi);
    if bs < be {
        let sep = ws_len_at_exec(b, p, hi);
        proof {
            if sep > 0 {
                lemma_ws_char_ends_on_boundary(b@, p as int, hi as int);
            }
        }
        Some(substr(text, p + sep, hi))
    } else {
        None
    }
}

/// The inner mermaid source of a one-line ```` ```mermaid … ``` ```` fence
/// filling the whole trimmed `text`, or `None`: what a host re-runs over a
/// table cell to find an inline diagram.
pub fn mermaid_span_in_str(text: &str) -> (r: Option<&str>)
    ensures
        match single_line_fence_range(text.spec_bytes(), lang_mermaid()) {
            Some(rg) => r is Some && r->0.spec_bytes() == text.spec_bytes().subrange(rg.0, rg.1),
            None => r is None,
        },
{
    let lang = mermaid_lang();
    single_line_fence_body(text, lang.as_slice())
}

/// The inner WaveJSON source of a one-line ```` ```wavedrom … ``` ```` fence
/// filling the whole trimmed `text`, or `None`.
pub fn wavedrom_span_in_str(text: &str) -> (r: Option<&str>)
    ensures
        match single_line_fence_range(text.spec_bytes(), lang_wavedrom()) {
            Some(rg) => r is Some && r->0.spec_bytes() == text.spec_bytes().subrange(rg.0, rg.1),
            None => r is None,
        },
{
    let lang = wavedrom_lang();
    single_line_fence_body(text, lang.as_slice())
}

/// Line numbers of every line of every fence, fence lines included, in order.
pub open spec fn fence_lines(fs: Seq<(int, int)>) -> Seq<int>
    decreases fs.len(),
{
    if fs.len() == 0 {
        seq![]
    } else {
        let f = fs.last();
        fence_lines(fs.drop_last()) + Seq::new((f.1 + 1 - f.0) as nat, |k: int| f.0 + k)
    }
}

/// The tinted lines of a diagram are exactly the lines of its fences: a line
/// is tinted when and only when it lies between some fence's opening and
/// closing line, both included.
pub proof fn lemma_fence_lines_cover(fs: Seq<(int, int)>, l: int)
    requires
        forall|i: int| 0 <= i < fs.len() ==> (#[trigger] fs[i]).0 <= fs[i].1,
    ensures
        fence_lines(fs).contains(l) <==> exists|i: int| 0 <= i < fs.len() && (#[trigger] fs[i]).0 <= l <= fs[i].1,
    decreases fs.len(),
{
    if fs.len() > 0 {
        let f = fs.last();
        let init = fs.drop_last();
        let tail = Seq::new((f.1 + 1 - f.0) as nat, |k: int| f.0 + k);
        assert forall|i: int| 0 <= i < init.len() implies (#[trigger] init[i]).0 <= init[i].1 by {
            assert(init[i] == fs[i]);
        }
        assert(fs[fs.len() - 1] == f);
        lemma_fence_lines_cover(init, l);
        assert(fence_lines(fs) == fence_lines(init) + tail);
        if fence_lines(fs).contains(l) {
            let p = choose|p: int| 0 <= p < fence_lines(fs).len() && fence_lines(fs)[p] == l;
            if p < fence_lines(init).len() {
                assert(fence_lines(init)[p] == l);
                let i = choose|i: int| 0 <= i < init.len() && (#[trigger] init[i]).0 <= l <= init[i].1;
                assert(fs[i] == init[i]);
            } else {
                assert(tail[p - fence_lines(init).len()] == l);
                assert(fs[fs.len() - 1] == f);
            }
        }
        if exists|i: int| 0 <= i < fs.len() && (#[trigger] fs[i]).0 <= l <= fs[i].1 {
            let i = choose|i: int| 0 <= i < fs.len() && (#[trigger] fs[i]).0 <= l <= fs[i].1;
            if i < fs.len() - 1 {
                assert(init[i] == fs[i]);
                assert(fence_lines(init).contains(l));
                let p = choose|p: int| 0 <= p < fence_lines(init).len() && fence_lines(init)[p] == l;
                assert(fence_lines(fs)[p] == l);
            } else {
                let p = fence_lines(init).len() + (l - f.0);
                assert(tail[l - f.0] == l);
                assert(fence_lines(fs)[p] == l);
            }
        }
    }
}

/// No line is tinted twice: the lines of fences that come in order and do
/// not overlap are strictly increasing.
pub proof fn lemma_fence_lines_increasing(fs: Seq<(int, int)>)
    requires
        forall|i: int| 0 <= i < fs.len() ==> (#[trigger] fs[i]).0 <= fs[i].1,
        forall|i: int, j: int| 0 <= i < j < fs.len() ==> (#[trigger] fs[i]).1 < (#[trigger] fs[j]).0,
    ensures
        forall|p: int, q: int|
            0 <= p < q < fence_lines(fs).len() ==> #[trigger] fence_lines(fs)[p] < #[trigger] fence_lines(fs)[q],
        fs.len() > 0 ==> forall|p: int| 0 <= p < fence_lines(fs).len() ==> #[trigger] fence_lines(fs)[p] <= fs.last().1,
    decreases fs.len(),
{
    if fs.len() > 0 {
        let f = fs.last();
        let init = fs.drop_last();
        let tail = Seq::new((f.1 + 1 - f.0) as nat, |k: int| f.0 + k);
        assert forall|i: int| 0 <= i < init.len() implies (#[trigger] init[i]).0 <= init[i].1 by {
            assert(init[i] == fs[i]);
        }
        assert forall|i: int, j: int| 0 <= i < j < init.len() implies (#[trigger] init[i]).1 < (#[trigger] init[j]).0 by {
            assert(init[i] == fs[i] && init[j] == fs[j]);
        }
        lemma_fence_lines_increasing(init);
        let head = fence_lines(init);
        assert(fence_lines(fs) == head + tail);
        if init.len() > 0 {
            assert(init.last() == fs[fs.len() - 2]);
            assert(fs[fs.len() - 2].1 < fs[fs.len() - 1].0);
        }
        assert forall|p: int, q: int| 0 <= p < q < fence_lines(fs).len() implies #[trigger] fence_lines(fs)[p]
            < #[trigger] fence_lines(fs)[q] by {
            if q < head.len() {
                assert(fence_lines(fs)[p] == head[p] && fence_lines(fs)[q] == head[q]);
            } else if p < head.len() {
                assert(fence_lines(fs)[p] == head[p]);
                assert(head[p] <= init.last().1);
                assert(fence_lines(fs)[q] == tail[q - head.len()]);
            } else {
                assert(fence_lines(fs)[p] == tail[p - head.len()]);
                assert(fence_lines(fs)[q] == tail[q - head.len()]);
            }
        }
        assert forall|p: int| 0 <= p < fence_lines(fs).len() implies #[trigger] fence_lines(fs)[p] <= fs.last().1 by {
            if p < head.len() {
                assert(fence_lines(fs)[p] == head[p]);
                assert(head[p] <= init.last().1);
            } else {
                assert(fence_lines(fs)[p] == tail[p - head.len()]);
            }
        }
    }
}

/// `entries` tints exactly the lines `lines` of `b` with `bg`, one `Line`
/// decoration per line spanning the line and its newline.
pub open spec fn tints_lines(
    b: Seq<u8>,
    entries: Seq<(std::ops::Range<usize>, Decoration)>,
    lines: Seq<int>,
    bg: Color,
) -> bool {
    &&& entries.len() == lines.len()
    &&& forall|i: int|
        0 <= i < entries.len() ==> {
            &&& (#[trigger] entries[i]).0.start == line_start(b, lines[i])
            &&& entries[i].0.end == line_end(b, lines[i])
            &&& entries[i].1 == Decoration::Line(LineStyle::spec_tinted(bg))
        }
}

/// Tinted-source fallback view for a diagram `lang`: a per-line background
/// tint across the whole fenced block (fence lines inclusive).
fn diagram_decorations(
    state: &EditorState,
    viewport: Option<&std::ops::Range<usize>>,
    lang: &[u8],
    bg: Color,
) -> (res: DecorationSet)
    ensures
        tints_lines(
            state.doc.bytes(),
            res.entries@,
            fence_lines(scan_fences_spec(state.doc.bytes(), viewport, lang@)),
            bg,
        ),
{
    let b = state.doc.as_str().as_bytes();
    let table = line_start_table(b);
    let fences = scan_fences(b, &table, viewport, lang);
    let ghost fs = scan_fences_spec(b@, viewport, lang@);
    let mut entries: Vec<(std::ops::Range<usize>, Decoration)> = Vec::new();
    let mut k: usize = 0;
    while k < fences.len()
        invariant
            b@ == state.doc.bytes(),
            fs == scan_fences_spec(b@, viewport, lang@),
            is_line_table(b@, table@),
            fences@.len() == fs.len(),
            forall|i: int|
                0 <= i < fences@.len() ==> (fences@[i].0 as int, fences@[i].1 as int) == #[trigger] fs[i],
            forall|i: int| 0 <= i < fences@.len() ==> #[trigger] fences@[i].0 <= fences@[i].1 < table@.len(),
            k <= fences@.len(),
            tints_lines(b@, entries@, fence_lines(fs.take(k as int)), bg),
        decreases fences@.len() - k,
    {
        let f = fences[k];
        assert(fences@[k as int].0 <= fences@[k as int].1 < table@.len());
        let n = table.len();
        let mut l = f.0;
        while l <= f.1
            invariant
                b@ == state.doc.bytes(),
                is_line_table(b@, table@),
                n == table@.len(),
                f.0 <= l <= f.1 + 1,
                f.1 < n,
                tints_lines(
                    b@,
                    entries@,
                    fence_lines(fs.take(k as int)) + Seq::new((l - f.0) as nat, |j: int| f.0 + j),
                    bg,
                ),
            decreases f.1 + 1 - l,
        {
            let s = line_start_at(b, &table, l);
            let e = line_end_at(b, &table, l);
            let ghost prev = fence_lines(fs.take(k as int)) + Seq::new((l - f.0) as nat, |j: int| f.0 + j);
            entries.push((s..e, Decoration::Line(LineStyle::tinted(bg))));
            proof {
                let next = fence_lines(fs.take(k as int)) + Seq::new((l + 1 - f.0) as nat, |j: int| f.0 + j);
                assert(next == prev.push(l as int));
            }
            l = l + 1;
        }
        proof {
            let t1 = fs.take(k + 1);
            assert(t1.drop_last() == fs.take(k as int));
            assert(t1.last() == fs[k as int]);
        }
        k = k + 1;
    }
    proof {
        assert(fs.take(fences@.len() as int) == fs);
    }
    DecorationSet::from_entries(entries)
}

/// The tint a diagram block gets: the theme's code background, or the
/// diagram kind's default.
pub open spec fn diagram_bg(theme: Option<&Theme>, default: Color) -> Color {
    match theme {
        Some(t) => t.markdown.code_bg,
        None => default,
    }
}

/// Tinted-source fallback view: a per-line background tint across the whole
/// ```` ```mermaid ```` block (fence lines inclusive).
pub fn mermaid_decorations(
    state: &EditorState,
    theme: Option<&Theme>,
    viewport: Option<&std::ops::Range<usize>>,
) -> (res: DecorationSet)
    ensures
        tints_lines(
            state.doc.bytes(),
            res.entries@,
            fence_lines(scan_fences_spec(state.doc.bytes(), viewport, lang_mermaid())),
            diagram_bg(theme, color_mermaid_bg()),
        ),
{
    let bg = match theme {
        Some(t) => t.markdown.code_bg,
        None => Color::rgba(120, 200, 180, 28),
    };
    let lang = mermaid_lang();
    diagram_decorations(state, viewport, lang.as_slice(), bg)
}

/// Tinted-source fallback view: a per-line background tint across the whole
/// ```` ```wavedrom ```` block (fence lines inclusive).
pub fn wavedrom_decorations(
    state: &EditorState,
    theme: Option<&Theme>,
    viewport: Option<&std::ops::Range<usize>>,
) -> (res: DecorationSet)
    ensures
        tints_lines(
            state.doc.bytes(),
            res.entries@,
            fence_lines(scan_fences_spec(state.doc.bytes(), viewport, lang_wavedrom())),
            diagram_bg(theme, color_wavedrom_bg()),
        ),
{
    let bg = match theme {
        Some(t) => t.markdown.code_bg,
        None => Color::rgba(200, 170, 120, 28),
    };
    let lang = wavedrom_lang();
    diagram_decorations(state, viewport, lang.as_slice(), bg)
}

/// Tinted-source fallback view: a per-line background tint across the whole
/// ```` ```chart ```` block (fence lines inclusive).
pub fn chart_decorations(
    state: &EditorState,
    theme: Option<&Theme>,
    viewport: Option<&std::ops::Range<usize>>,
) -> (res: DecorationSet)
    ensures
        tints_lines(
            state.doc.bytes(),
            res.entries@,
            fence_lines(scan_fences_spec(state.doc.bytes(), viewport, lang_chart())),
            diagram_bg(theme, color_chart_bg()),
        ),
{
    let bg = match theme {
        Some(t) => t.markdown.code_bg,
        None => Color::rgba(140, 170, 220, 28),
    };
    let lang = chart_lang();
    diagram_decorations(state, viewport, lang.as_slice(), bg)
}

} // verus!
