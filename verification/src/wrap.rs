//! Soft-wrap inputs of one line: the largest font scale its marks ask for,
//! and the visual spans of its replacements (text that paints as something
//! else, such as a concealed marker or a link pill), so a wrap calculation
//! counts the columns a line really paints.
//!
//! A decoration touches a line when its range overlaps the line's bytes or
//! the byte just past its end (`start < hi && lo < end`, half open), so a
//! decoration anchored at the line break still counts. Span ends are
//! clamped to the line and snapped down to a character boundary.

use vstd::prelude::*;
use vstd::string::*;
use vstd::utf8::*;

use crate::decoration::Decoration;
use crate::decoration::DecorationSet;
use crate::document::is_line_table;
use crate::document::lemma_lines;
use crate::document::line_content_end;
use crate::document::line_content_end_at;
use crate::document::line_count;
use crate::document::line_start;
use crate::document::line_start_at;
use crate::document::line_start_table;
use crate::text::substr;

verus! {

broadcast use vstd::seq::group_seq_axioms;

/// A stretch `start..end` of a line (bytes from the line's start) that
/// paints as `cols` columns.
#[derive(Clone, Copy, Debug, PartialEq, Eq, Structural)]
pub struct VisualSpan {
    pub start: u32,
    pub end: u32,
    pub cols: u32,
}

/// The range `r` touches `lo..hi` (half open).
pub open spec fn touches(r: std::ops::Range<usize>, lo: int, hi: int) -> bool {
    r.start < hi && lo < r.end
}

/// The largest character boundary of `lb` at or below `y`.
pub open spec fn snap_down(lb: Seq<u8>, y: int) -> int
    decreases y,
{
    if y <= 0 {
        0
    } else if is_char_boundary(lb, y) {
        y
    } else {
        snap_down(lb, y - 1)
    }
}

/// `x` clamped to the line `lb` and snapped down to a character boundary.
pub open spec fn snap(lb: Seq<u8>, x: int) -> int {
    snap_down(
        lb,
        if x < lb.len() {
            x
        } else {
            lb.len() as int
        },
    )
}

/// `a - b`, or 0 below zero.
pub open spec fn sat_sub(a: int, b: int) -> int {
    if a >= b {
        a - b
    } else {
        0
    }
}

/// The bounds line `l` of `b` is probed over: its start, and its content end
/// or one past its start, whichever is larger.
pub open spec fn probe(b: Seq<u8>, l: int) -> (int, int) {
    let st = line_start(b, l);
    let ce = line_content_end(b, l);
    (st, if ce > st + 1 {
        ce
    } else {
        st + 1
    })
}

/// The visual span one entry contributes to line `l`, if any: a replacement
/// touching the line whose snapped span is not empty.
pub open spec fn entry_span(b: Seq<u8>, l: int, e: (std::ops::Range<usize>, Decoration)) -> Option<
    VisualSpan,
> {
    let st = line_start(b, l);
    let lb = b.subrange(st, line_content_end(b, l));
    let pr = probe(b, l);
    match e.1 {
        Decoration::Replace { display } => if touches(e.0, pr.0, pr.1) {
            let s = snap(lb, sat_sub(e.0.start as int, st));
            let en = snap(lb, sat_sub(e.0.end as int, st));
            if en > s {
                Some(
                    VisualSpan {
                        start: s as u32,
                        end: en as u32,
                        cols: match display {
                            Some(d) => d@.len() as u32,
                            None => 0,
                        },
                    },
                )
            } else {
                None
            }
        } else {
            None
        },
        _ => None,
    }
}

/// The font scale one entry asks of line `l`, if any: a mark with a scale
/// touching the line.
pub open spec fn entry_scale(b: Seq<u8>, l: int, e: (std::ops::Range<usize>, Decoration)) -> Option<u32> {
    let pr = probe(b, l);
    match e.1 {
        Decoration::Mark(m) => if touches(e.0, pr.0, pr.1) {
            m.font_scale
        } else {
            None
        },
        _ => None,
    }
}

/// The entries of all `sets`, set by set, in order.
pub open spec fn all_entries(sets: Seq<DecorationSet>) -> Seq<(std::ops::Range<usize>, Decoration)>
    decreases sets.len(),
{
    if sets.len() == 0 {
        seq![]
    } else {
        all_entries(sets.drop_last()) + sets.last().entries@
    }
}

/// The visual spans of `es[..n]` on line `l`, in entry order.
pub open spec fn raw_spans(b: Seq<u8>, l: int, es: Seq<(std::ops::Range<usize>, Decoration)>, n: int) -> Seq<
    VisualSpan,
>
    decreases n,
{
    if n <= 0 {
        seq![]
    } else {
        let prev = raw_spans(b, l, es, n - 1);
        match entry_span(b, l, es[n - 1]) {
            Some(v) => prev.push(v),
            None => prev,
        }
    }
}

/// The largest font scale (thousandths, at least 1000) of `es[..n]` on
/// line `l`.
pub open spec fn max_scale(b: Seq<u8>, l: int, es: Seq<(std::ops::Range<usize>, Decoration)>, n: int) -> u32
    decreases n,
{
    if n <= 0 {
        1000
    } else {
        let prev = max_scale(b, l, es, n - 1);
        match entry_scale(b, l, es[n - 1]) {
            Some(s) => if s > prev {
                s
            } else {
                prev
            },
            None => prev,
        }
    }
}

/// `res` is `raw` stably sorted by start: some arrangement `order` of all of
/// `raw`'s indices, increasing by start and then by index, lists it.
pub open spec fn stably_sorted_by_start(res: Seq<VisualSpan>, raw: Seq<VisualSpan>) -> bool {
    exists|order: Seq<int>|
        {
            &&& order.len() == raw.len()
            &&& res.len() == raw.len()
            &&& forall|k: int| 0 <= k < order.len() ==> 0 <= #[trigger] order[k] < raw.len()
            &&& forall|a: int, c: int|
                0 <= a < c < order.len() ==> span_before(raw, #[trigger] order[a], #[trigger] order[c])
            &&& forall|x: int| 0 <= x < raw.len() ==> #[trigger] order.contains(x)
            &&& forall|k: int| 0 <= k < res.len() ==> #[trigger] res[k] == raw[order[k]]
        }
}

/// Span `i` of `raw` comes before span `j`: an earlier start, or the same
/// start and an earlier index.
pub open spec fn span_before(raw: Seq<VisualSpan>, i: int, j: int) -> bool {
    raw[i].start < raw[j].start || (raw[i].start == raw[j].start && i < j)
}

/// Sort `raw` by start, keeping the order of spans with equal starts.
fn stable_sort_by_start(raw: &Vec<VisualSpan>) -> (res: Vec<VisualSpan>)
    ensures
        stably_sorted_by_start(res@, raw@),
{
    let n = raw.len();
    let mut order: Vec<usize> = Vec::new();
    let mut i: usize = 0;
    while i < n
        invariant
            n == raw@.len(),
            i <= n,
            order@.len() == i,
            forall|k: int| 0 <= k < order@.len() ==> 0 <= #[trigger] order@[k] < i,
            forall|a: int, c: int|
                0 <= a < c < order@.len() ==> span_before(
                    raw@,
                    #[trigger] order@[a] as int,
                    #[trigger] order@[c] as int,
                ),
            forall|x: int| 0 <= x < i ==> #[trigger] order@.contains(x as usize),
        decreases n - i,
    {
        let key = raw[i].start;
        let mut p: usize = order.len();
        while p > 0 && raw[order[p - 1]].start > key
            invariant
                n == raw@.len(),
                i < n,
                key == raw@[i as int].start,
                p <= order@.len(),
                forall|k: int| 0 <= k < order@.len() ==> 0 <= #[trigger] order@[k] < i,
                forall|k: int| p <= k < order@.len() ==> span_before(raw@, i as int, #[trigger] order@[k] as int),
            decreases p,
        {
            p = p - 1;
        }
        proof {
            assert forall|k: int| 0 <= k < p implies span_before(raw@, #[trigger] order@[k] as int, i as int) by {
                if p > 0 {
                    let last = order@[p - 1] as int;
                    assert(!(raw@[last].start > key));
                    if k < p - 1 {
                        assert(span_before(raw@, order@[k] as int, last));
                    }
                }
            }
        }
        let ghost old_order = order@;
        order.insert(p, i);
        proof {
            assert(order@ == old_order.insert(p as int, i));
            assert forall|a: int, c: int| 0 <= a < c < order@.len() implies span_before(
                raw@,
                #[trigger] order@[a] as int,
                #[trigger] order@[c] as int,
            ) by {
                if c < p {
                    assert(order@[a] == old_order[a] && order@[c] == old_order[c]);
                } else if c == p {
                    assert(order@[a] == old_order[a]);
                } else if a == p {
                    assert(order@[c] == old_order[c - 1]);
                } else if a < p {
                    assert(order@[a] == old_order[a] && order@[c] == old_order[c - 1]);
                } else {
                    assert(order@[a] == old_order[a - 1] && order@[c] == old_order[c - 1]);
                }
            }
            assert forall|x: int| 0 <= x < i + 1 implies #[trigger] order@.contains(x as usize) by {
                if x == i {
                    assert(order@[p as int] == i);
                } else {
                    assert(old_order.contains(x as usize));
                    let k = choose|k: int| 0 <= k < old_order.len() && old_order[k] == x as usize;
                    if k < p {
                        assert(order@[k] == x as usize);
                    } else {
                        assert(order@[k + 1] == x as usize);
                    }
                }
            }
            assert forall|k: int| 0 <= k < order@.len() implies 0 <= #[trigger] order@[k] < i + 1 by {
                if k < p {
                    assert(order@[k] == old_order[k]);
                } else if k > p {
                    assert(order@[k] == old_order[k - 1]);
                }
            }
        }
        i = i + 1;
    }
    let mut res: Vec<VisualSpan> = Vec::new();
    let mut k: usize = 0;
    while k < n
        invariant
            n == raw@.len(),
            order@.len() == n,
            forall|m: int| 0 <= m < order@.len() ==> 0 <= #[trigger] order@[m] < n,
            k <= n,
            res@.len() == k,
            forall|m: int| 0 <= m < k ==> #[trigger] res@[m] == raw@[order@[m] as int],
        decreases n - k,
    {
        res.push(raw[order[k]]);
        k = k + 1;
    }
    proof {
        let ord = order@.map_values(|x: usize| x as int);
        assert forall|x: int| 0 <= x < raw@.len() implies #[trigger] ord.contains(x) by {
            assert(order@.contains(x as usize));
            let k = choose|k: int| 0 <= k < order@.len() && order@[k] == x as usize;
            assert(ord[k] == x);
        }
        assert(forall|m: int| 0 <= m < res@.len() ==> #[trigger] res@[m] == raw@[ord[m]]);
        assert forall|m: int| 0 <= m < ord.len() implies 0 <= #[trigger] ord[m] < raw@.len() by {
            assert(ord[m] == order@[m] as int);
        }
        assert forall|a: int, c: int| 0 <= a < c < ord.len() implies span_before(
            raw@,
            #[trigger] ord[a],
            #[trigger] ord[c],
        ) by {
            assert(ord[a] == order@[a] as int && ord[c] == order@[c] as int);
        }
        assert(ord.len() == raw@.len());
    }
    res
}

/// The largest character boundary of `line` at or below `x` clamped to it.
fn snap_exec(line: &str, x: usize) -> (r: usize)
    ensures
        r as int == snap(line.spec_bytes(), x as int),
{
    let n = line.as_bytes().len();
    let mut y = if x < n {
        x
    } else {
        n
    };
    while y > 0 && !line.is_char_boundary(y)
        invariant
            y <= n,
            n == line.spec_bytes().len(),
            snap_down(line.spec_bytes(), y as int) == snap(line.spec_bytes(), x as int),
        decreases y,
    {
        y = y - 1;
    }
    y
}

/// The soft-wrap inputs of line `line` of `text` under the decoration sets
/// `sets`: the largest font scale (thousandths, at least 1000) a mark
/// touching the line asks for, and the visual spans of the replacements
/// touching it, sorted by start (stably).
pub fn line_wrap_inputs(text: &str, line: usize, sets: &Vec<DecorationSet>) -> (r: (u32, Vec<VisualSpan>))
    requires
        line < line_count(text.spec_bytes()),
        text.spec_bytes().len() < usize::MAX,
    ensures
        r.0 == max_scale(
            text.spec_bytes(),
            line as int,
            all_entries(sets@),
            all_entries(sets@).len() as int,
        ),
        stably_sorted_by_start(
            r.1@,
            raw_spans(
                text.spec_bytes(),
                line as int,
                all_entries(sets@),
                all_entries(sets@).len() as int,
            ),
        ),
{
    let b = text.as_bytes();
    let table = line_start_table(b);
    proof {
        lemma_lines(b@);
        encode_utf8_valid_utf8(text@);
        crate::links::lemma_line_boundaries(b@, line as int);
    }
    let st = line_start_at(b, &table, line);
    let ce = line_content_end_at(b, &table, line);
    let lt = substr(text, st, ce);
    let hi = if ce > st + 1 {
        ce
    } else {
        st + 1
    };
    let ghost es = all_entries(sets@);
    let mut scale: u32 = 1000;
    let mut raw: Vec<VisualSpan> = Vec::new();
    let ghost mut done: Seq<(std::ops::Range<usize>, Decoration)> = seq![];
    let mut k: usize = 0;
    while k < sets.len()
        invariant
            b@ == text.spec_bytes(),
            line < line_count(b@),
            st as int == line_start(b@, line as int),
            (st as int, hi as int) == probe(b@, line as int),
            lt.spec_bytes() == b@.subrange(st as int, line_content_end(b@, line as int)),
            k <= sets@.len(),
            done == all_entries(sets@.take(k as int)),
            scale == max_scale(b@, line as int, done, done.len() as int),
            raw@ == raw_spans(b@, line as int, done, done.len() as int),
        decreases sets@.len() - k,
    {
        let set = &sets[k];
        let mut i: usize = 0;
        while i < set.entries.len()
            invariant
                b@ == text.spec_bytes(),
                st as int == line_start(b@, line as int),
                (st as int, hi as int) == probe(b@, line as int),
                lt.spec_bytes() == b@.subrange(st as int, line_content_end(b@, line as int)),
                i <= set.entries@.len(),
                scale == max_scale(b@, line as int, done + set.entries@.take(i as int), done.len() + i),
                raw@ == raw_spans(b@, line as int, done + set.entries@.take(i as int), done.len() + i),
            decreases set.entries@.len() - i,
        {
            let e = &set.entries[i];
            let ghost cur = done + set.entries@.take(i as int);
            let ghost nxt = done + set.entries@.take(i + 1);
            proof {
                assert(nxt == cur.push(set.entries@[i as int]));
                assert(nxt.take(cur.len() as int) == cur);
                lemma_max_scale_prefix(b@, line as int, nxt, cur.len() as int);
                lemma_raw_spans_prefix(b@, line as int, nxt, cur.len() as int);
            }
            let touching = e.0.start < hi && st < e.0.end;
            match &e.1 {
                Decoration::Mark(m) => {
                    if touching {
                        match m.font_scale {
                            Some(s) => {
                                if s > scale {
                                    scale = s;
                                }
                            },
                            None => {},
                        }
                    }
                },
                Decoration::Replace { display } => {
                    if touching {
                        let s = snap_exec(lt, if e.0.start >= st {
                            e.0.start - st
                        } else {
                            0
                        });
                        let en = snap_exec(lt, if e.0.end >= st {
                            e.0.end - st
                        } else {
                            0
                        });
                        if en > s {
                            let cols = match display {
                                Some(d) => d.as_str().unicode_len() as u32,
                                None => 0,
                            };
                            raw.push(VisualSpan { start: s as u32, end: en as u32, cols });
                        }
                    }
                },
                _ => {},
            }
            i = i + 1;
        }
        proof {
            assert(set.entries@.take(set.entries@.len() as int) == set.entries@);
            let t1 = sets@.take(k + 1);
            assert(t1.drop_last() == sets@.take(k as int));
            assert(t1.last() == sets@[k as int]);
            done = done + set.entries@;
        }
        k = k + 1;
    }
    proof {
        assert(sets@.take(sets@.len() as int) == sets@);
    }
    let sorted = stable_sort_by_start(&raw);
    (scale, sorted)
}

/// Extending the entries past `n` does not change the scale of the first `n`.
proof fn lemma_max_scale_prefix(b: Seq<u8>, l: int, es: Seq<(std::ops::Range<usize>, Decoration)>, n: int)
    requires
        0 <= n < es.len(),
    ensures
        max_scale(b, l, es, n) == max_scale(b, l, es.take(n), n),
    decreases n,
{
    if n > 0 {
        lemma_max_scale_prefix(b, l, es, n - 1);
        lemma_max_scale_prefix(b, l, es.take(n), n - 1);
        assert(es.take(n).take(n - 1) == es.take(n - 1));
        assert(es.take(n)[n - 1] == es[n - 1]);
    }
}

/// Extending the entries past `n` does not change the spans of the first `n`.
proof fn lemma_raw_spans_prefix(b: Seq<u8>, l: int, es: Seq<(std::ops::Range<usize>, Decoration)>, n: int)
    requires
        0 <= n < es.len(),
    ensures
        raw_spans(b, l, es, n) == raw_spans(b, l, es.take(n), n),
    decreases n,
{
    if n > 0 {
        lemma_raw_spans_prefix(b, l, es, n - 1);
        lemma_raw_spans_prefix(b, l, es.take(n), n - 1);
        assert(es.take(n).take(n - 1) == es.take(n - 1));
        assert(es.take(n)[n - 1] == es[n - 1]);
    }
}

/// Rows of a line's cached wrap: its row count, or one row when uncached.
pub open spec fn live_rows(o: Option<u32>) -> u32 {
    match o {
        Some(c) => c,
        None => 1,
    }
}

/// Whether some visible line's live soft-wrap row count differs from the
/// count the height map reserved for it: `live[k]` is the row count of the
/// k-th visible line's cached wrap, if any (an uncached line counts one
/// row), and `baked[k]` the count reserved for it. Never, when wrapping is
/// off.
pub fn visible_wrap_mismatch(wrap_enabled: bool, live: &Vec<Option<u32>>, baked: &Vec<u32>) -> (r: bool)
    requires
        live@.len() == baked@.len(),
    ensures
        r == (wrap_enabled && exists|k: int|
            0 <= k < live@.len() && live_rows(#[trigger] live@[k]) != baked@[k]),
{
    if !wrap_enabled {
        return false;
    }
    let mut k: usize = 0;
    while k < live.len()
        invariant
            wrap_enabled,
            live@.len() == baked@.len(),
            k <= live@.len(),
            forall|m: int| 0 <= m < k ==> live_rows(#[trigger] live@[m]) == baked@[m],
        decreases live@.len() - k,
    {
        let c = match live[k] {
            Some(c) => c,
            None => 1u32,
        };
        if c != baked[k] {
            assert(live_rows(live@[k as int]) != baked@[k as int]);
            return true;
        }
        k = k + 1;
    }
    false
}

} // verus!
