//! Agent-overlay geometry: where the per-hunk Accept/Reject (or Restore)
//! action row anchors relative to a `diff(working, proposal)` hunk.
//!
//! The placement math is a pure function of the two texts. The green
//! addition for an `Added` hunk renders as a block above the working line at
//! its insertion site; the action row must land adjacent to that block — see
//! [`anchor_and_side`].

use vstd::prelude::*;
use vstd::string::*;

use crate::decoration::BlockSide;
use crate::decoration::copy_range;
use crate::document::is_line_table;
use crate::document::lemma_line_starts_shape;
use crate::document::lemma_lines;
use crate::document::line_count;
use crate::document::line_of;
use crate::document::line_of_exec;
use crate::document::line_start;
use crate::document::line_start_at;
use crate::document::line_start_table;
use crate::document::line_starts;

verus! {

broadcast use vstd::seq::group_seq_axioms;

/// The kind of a diff hunk.
#[derive(Clone, Copy, Debug, PartialEq, Eq, Structural, Hash)]
pub enum HunkKind {
    /// Lines both sides share.
    Context,
    /// Lines only the right side has.
    Added,
    /// Lines only the left side has.
    Removed,
    /// Lines that differ between the sides.
    Modified,
}

/// A line-level diff hunk: its kind and the line ranges it covers on the
/// left (old) and right (new) side.
#[derive(Debug, PartialEq, Eq)]
pub struct Hunk {
    pub kind: HunkKind,
    pub left_lines: std::ops::Range<usize>,
    pub right_lines: std::ops::Range<usize>,
}

impl Clone for Hunk {
    fn clone(&self) -> (h: Hunk)
        ensures
            h == *self,
    {
        Hunk {
            kind: self.kind,
            left_lines: copy_range(&self.left_lines),
            right_lines: copy_range(&self.right_lines),
        }
    }
}

/// A `diff(working, proposal)` change hunk projected into byte coordinates.
/// `byte_*` is the span in the editable buffer (`working`, the diff's left
/// side) where the hunk attaches — a pure insertion is a zero-width range at
/// its site. `op_*` is the span in the `proposal` (right side) where the
/// pending content lives.
#[derive(Clone, Copy, Debug, PartialEq, Eq, Structural)]
pub struct AgentHunk {
    pub byte_start: usize,
    pub byte_end: usize,
    pub op_start: usize,
    pub op_end: usize,
    pub kind: HunkKind,
}

impl AgentHunk {
    /// A pure insertion has no footprint in the working buffer (zero-width).
    pub fn is_pure_insertion(&self) -> (r: bool)
        ensures
            r == (self.byte_start == self.byte_end),
    {
        self.byte_start == self.byte_end
    }
}

/// Byte offset of the start of each physical line of `b`, with a trailing
/// entry equal to the length of `b`: the line starts, plus the end of the
/// text when the last line is not empty.
pub open spec fn line_byte_offsets_spec(b: Seq<u8>) -> Seq<int> {
    let ls = line_starts(b);
    if ls.last() < b.len() {
        ls.push(b.len() as int)
    } else {
        ls
    }
}

/// Byte offset of the start of each physical line in `text`, with a trailing
/// entry equal to `text.len()`.
pub fn line_byte_offsets(text: &str) -> (v: Vec<usize>)
    ensures
        v@.len() == line_byte_offsets_spec(text.spec_bytes()).len(),
        forall|i: int|
            0 <= i < v@.len() ==> v@[i] as int == #[trigger] line_byte_offsets_spec(text.spec_bytes())[i],
{
    let b = text.as_bytes();
    let mut v = line_start_table(b);
    proof {
        lemma_lines(b@);
    }
    let last = v[v.len() - 1];
    if last < b.len() {
        let ghost before = v@;
        v.push(b.len());
        proof {
            assert forall|i: int| 0 <= i < v@.len() implies v@[i] as int
                == #[trigger] line_byte_offsets_spec(b@)[i] by {
                if i < before.len() {
                    assert(v@[i] == before[i]);
                }
            }
        }
    }
    v
}

/// Start of line `line` of `b`, or the end of `b` past its last line.
pub open spec fn buf_byte(b: Seq<u8>, line: int) -> int {
    if line >= line_count(b) {
        b.len() as int
    } else {
        line_start(b, line)
    }
}

/// Entry `line` of the proposal's line offsets, or the proposal's end past
/// them.
pub open spec fn prop_byte(p: Seq<u8>, line: int) -> int {
    if line < line_byte_offsets_spec(p).len() {
        line_byte_offsets_spec(p)[line]
    } else {
        p.len() as int
    }
}

/// The byte projection of one change hunk.
pub open spec fn project_hunk(w: Seq<u8>, p: Seq<u8>, h: Hunk) -> AgentHunk {
    let bs = buf_byte(w, h.left_lines.start as int);
    let be = buf_byte(w, h.left_lines.end as int);
    let os = prop_byte(p, h.right_lines.start as int);
    let oe = prop_byte(p, h.right_lines.end as int);
    AgentHunk {
        byte_start: bs as usize,
        byte_end: (if be > bs {
            be
        } else {
            bs
        }) as usize,
        op_start: os as usize,
        op_end: (if oe > os {
            oe
        } else {
            os
        }) as usize,
        kind: h.kind,
    }
}

/// The byte projections of the non-context hunks of `hs`, in order.
pub open spec fn agent_hunks_spec(w: Seq<u8>, p: Seq<u8>, hs: Seq<Hunk>) -> Seq<AgentHunk>
    decreases hs.len(),
{
    if hs.len() == 0 {
        seq![]
    } else {
        let prev = agent_hunks_spec(w, p, hs.drop_last());
        if hs.last().kind == HunkKind::Context {
            prev
        } else {
            prev.push(project_hunk(w, p, hs.last()))
        }
    }
}

proof fn lemma_offsets_bounds(p: Seq<u8>)
    ensures
        forall|i: int|
            0 <= i < line_byte_offsets_spec(p).len() ==> 0 <= #[trigger] line_byte_offsets_spec(p)[i]
                <= p.len(),
{
    lemma_lines(p);
}

/// Project `diff(working, proposal)` change hunks into [`AgentHunk`] byte
/// spans, dropping context hunks. `working` is the editable buffer (the
/// diff's left side); `proposal` is the agent's text (the right side).
pub fn agent_hunks(working: &str, proposal: &str, hunks: &[Hunk]) -> (out: Vec<AgentHunk>)
    ensures
        out@ == agent_hunks_spec(working.spec_bytes(), proposal.spec_bytes(), hunks@),
        forall|i: int|
            0 <= i < out@.len() ==> {
                &&& (#[trigger] out@[i]).byte_start <= out@[i].byte_end <= working.spec_bytes().len()
                &&& out@[i].op_start <= out@[i].op_end <= proposal.spec_bytes().len()
                &&& out@[i].kind != HunkKind::Context
            },
{
    let w = working.as_bytes();
    let p = proposal.as_bytes();
    let table = line_start_table(w);
    let offsets = line_byte_offsets(proposal);
    let nw = table.len();
    let no = offsets.len();
    proof {
        lemma_lines(w@);
        lemma_offsets_bounds(p@);
    }
    let mut out: Vec<AgentHunk> = Vec::new();
    let mut i: usize = 0;
    while i < hunks.len()
        invariant
            w@ == working.spec_bytes(),
            p@ == proposal.spec_bytes(),
            is_line_table(w@, table@),
            nw == table@.len(),
            no == offsets@.len(),
            offsets@.len() == line_byte_offsets_spec(p@).len(),
            forall|k: int|
                0 <= k < offsets@.len() ==> offsets@[k] as int == #[trigger] line_byte_offsets_spec(p@)[k],
            forall|k: int|
                0 <= k < line_byte_offsets_spec(p@).len() ==> 0 <= #[trigger] line_byte_offsets_spec(p@)[k]
                    <= p@.len(),
            forall|k: int| 0 <= k < line_count(w@) ==> 0 <= #[trigger] line_starts(w@)[k] <= w@.len(),
            i <= hunks@.len(),
            out@ == agent_hunks_spec(w@, p@, hunks@.take(i as int)),
            forall|k: int|
                0 <= k < out@.len() ==> {
                    &&& (#[trigger] out@[k]).byte_start <= out@[k].byte_end <= w@.len()
                    &&& out@[k].op_start <= out@[k].op_end <= p@.len()
                    &&& out@[k].kind != HunkKind::Context
                },
        decreases hunks@.len() - i,
    {
        let h = &hunks[i];
        proof {
            let t1 = hunks@.take(i + 1);
            assert(t1.drop_last() == hunks@.take(i as int));
            assert(t1.last() == hunks@[i as int]);
        }
        match h.kind {
            HunkKind::Context => {},
            _ => {
                let bs = if h.left_lines.start >= nw {
                    w.len()
                } else {
                    line_start_at(w, &table, h.left_lines.start)
                };
                let be0 = if h.left_lines.end >= nw {
                    w.len()
                } else {
                    line_start_at(w, &table, h.left_lines.end)
                };
                let be = if be0 > bs {
                    be0
                } else {
                    bs
                };
                let os = if h.right_lines.start < no {
                    offsets[h.right_lines.start]
                } else {
                    p.len()
                };
                let oe0 = if h.right_lines.end < no {
                    offsets[h.right_lines.end]
                } else {
                    p.len()
                };
                let oe = if oe0 > os {
                    oe0
                } else {
                    os
                };
                let a = AgentHunk { byte_start: bs, byte_end: be, op_start: os, op_end: oe, kind: h.kind };
                proof {
                    assert(a == project_hunk(w@, p@, hunks@[i as int]));
                }
                out.push(a);
            },
        }
        i = i + 1;
    }
    proof {
        assert(hunks@.take(hunks@.len() as int) == hunks@);
    }
    out
}

/// The anchor of a hunk's action row: a hunk with width anchors below its
/// last line (the line holding its last byte); a pure insertion anchors
/// above the line holding its insertion site. Positions past the end of the
/// text are clamped to it.
pub open spec fn anchor_spec(b: Seq<u8>, byte_start: int, byte_end: int) -> (int, BlockSide) {
    let len = b.len() as int;
    if byte_end > byte_start {
        let last = if byte_end - 1 < len {
            byte_end - 1
        } else {
            len
        };
        (line_start(b, line_of(b, last)), BlockSide::Below)
    } else {
        let pos = if byte_start < len {
            byte_start
        } else {
            len
        };
        (line_start(b, line_of(b, pos)), BlockSide::Above)
    }
}

/// The byte position and block side to anchor a per-hunk action row at.
///
/// - A modify / delete hunk has width in the buffer: anchor at the start of
///   its last line, rendered `Below` it.
/// - A pure insertion is zero-width: the green addition renders `Above` the
///   working line at the insertion site, so the action row is also `Above`
///   that same line, adjacent to the addition.
pub fn anchor_and_side(working: &str, byte_start: usize, byte_end: usize) -> (r: (usize, BlockSide))
    ensures
        (r.0 as int, r.1) == anchor_spec(working.spec_bytes(), byte_start as int, byte_end as int),
{
    let b = working.as_bytes();
    let table = line_start_table(b);
    let len = b.len();
    if byte_end > byte_start {
        let last = if byte_end - 1 < len {
            byte_end - 1
        } else {
            len
        };
        let line = line_of_exec(b, &table, last);
        (line_start_at(b, &table, line), BlockSide::Below)
    } else {
        let pos = if byte_start < len {
            byte_start
        } else {
            len
        };
        let line = line_of_exec(b, &table, pos);
        (line_start_at(b, &table, line), BlockSide::Above)
    }
}

/// The action row anchors at the start of the very line that holds the
/// hunk's last byte (or, for a pure insertion, its insertion site): no line
/// lies between that start and the byte, so the row sits next to the change
/// it acts on.
pub proof fn lemma_anchor_adjacent(b: Seq<u8>, byte_start: int, byte_end: int)
    ensures
        ({
            let len = b.len() as int;
            let x = if byte_end > byte_start {
                if byte_end - 1 < len {
                    byte_end - 1
                } else {
                    len
                }
            } else if byte_start < len {
                byte_start
            } else {
                len
            };
            let a = anchor_spec(b, byte_start, byte_end).0;
            0 <= x ==> {
                &&& a <= x
                &&& forall|q: int| a <= q < x ==> b[q] != crate::text::NL
            }
        }),
{
    let len = b.len() as int;
    let x = if byte_end > byte_start {
        if byte_end - 1 < len {
            byte_end - 1
        } else {
            len
        }
    } else if byte_start < len {
        byte_start
    } else {
        len
    };
    if 0 <= x {
        lemma_line_of_start(b, x);
    }
}

/// Line `line_of(x)` starts at or before `x`, and no newline lies in
/// `line_start..x`.
pub proof fn lemma_line_of_start(b: Seq<u8>, x: int)
    requires
        0 <= x <= b.len(),
    ensures
        line_start(b, line_of(b, x)) <= x,
        forall|q: int| line_start(b, line_of(b, x)) <= q < x ==> b[q] != crate::text::NL,
{
    lemma_line_starts_shape(b, x);
    crate::document::lemma_line_starts_prefix(b, x, b.len() as int);
    let ls = crate::document::line_starts_upto(b, x);
    let l = ls.len() - 1;
    assert(line_starts(b)[l] == ls[l]);
    assert forall|q: int| line_start(b, line_of(b, x)) <= q < x implies b[q] != crate::text::NL by {
        if b[q] == crate::text::NL {
            assert(b[(q + 1) - 1] == crate::text::NL);
            assert(ls.contains(q + 1));
            let k = choose|k: int| 0 <= k < ls.len() && ls[k] == q + 1;
            assert(ls[k] <= ls[l]);
            if k < l {
                assert(ls[k] < ls[l]);
            }
        }
    }
}

} // verus!
