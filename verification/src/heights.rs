//! Line-height derivation: which height changes the decorations of a
//! document ask the height map for.
//!
//! The host names the decoration sets it tracks for height (its height
//! layers); every entry of them that starts within the text is read. Each entry
//! yields at most one operation, in order; sizing the widgets and applying
//! the operations to the height map (scaled heights, the per-line tallest
//! inline widget, the soft-wrap multiplier) is the host's part.

use vstd::prelude::*;
use vstd::string::*;

use crate::decoration::BlockSide;
use crate::decoration::Decoration;
use crate::decoration::DecorationSet;
use crate::document::is_line_table;
use crate::document::line_of;
use crate::document::line_of_exec;
use crate::document::line_start_table;

verus! {

broadcast use vstd::seq::group_seq_axioms;

/// One change a decoration asks of the height map, on line `line`.
#[derive(Clone, Copy, Debug, PartialEq, Eq, Structural)]
pub enum HeightOp {
    /// The line is hidden: its height becomes 0.
    Hide { line: usize },
    /// The line's height becomes the base height times `scale` thousandths.
    Scale { line: usize, scale: u32 },
    /// A block of `height` logical pixels is injected on `side` of the line.
    Block { line: usize, side: BlockSide, height: u32 },
    /// A block widget is injected on `side` of the line; the host measures it.
    BlockWidget { line: usize, side: BlockSide, widget_id: u64 },
    /// An inline widget sits on the line; the host measures it, and the
    /// line grows to the tallest such widget.
    InlineWidget { line: usize, widget_id: u64 },
}

/// The operation of one decoration `d` starting at byte `start` of `b`.
pub open spec fn height_op_of(b: Seq<u8>, start: int, d: Decoration) -> Option<HeightOp> {
    let line = line_of(b, start) as usize;
    match d {
        Decoration::Line(l) => if l.hide {
            Some(HeightOp::Hide { line })
        } else {
            match l.height_scale {
                Some(s) => Some(HeightOp::Scale { line, scale: s }),
                None => None,
            }
        },
        Decoration::Block(bd) => Some(HeightOp::Block { line, side: bd.side, height: bd.height }),
        Decoration::BlockWidget { side, widget_id } => Some(
            HeightOp::BlockWidget { line, side, widget_id },
        ),
        Decoration::InlineWidget { widget, .. } => Some(HeightOp::InlineWidget { line, widget_id: widget.id }),
        Decoration::HostInlineWidget { widget_id, .. } => Some(HeightOp::InlineWidget { line, widget_id }),
        _ => None,
    }
}

/// The operations of the first `n` entries of one height layer, in order:
/// one per entry that starts within the text and asks for a change.
pub open spec fn set_ops(b: Seq<u8>, entries: Seq<(std::ops::Range<usize>, Decoration)>, n: int) -> Seq<
    HeightOp,
>
    decreases n,
{
    if n <= 0 {
        seq![]
    } else {
        let prev = set_ops(b, entries, n - 1);
        let e = entries[n - 1];
        if e.0.start <= b.len() && height_op_of(b, e.0.start as int, e.1) is Some {
            prev.push(height_op_of(b, e.0.start as int, e.1)->0)
        } else {
            prev
        }
    }
}

/// The operations of the height layers `layers[..n]`, layer by layer.
pub open spec fn height_ops(b: Seq<u8>, layers: Seq<DecorationSet>, n: int) -> Seq<HeightOp>
    decreases n,
{
    if n <= 0 {
        seq![]
    } else {
        let s = layers[n - 1].entries@;
        height_ops(b, layers, n - 1) + set_ops(b, s, s.len() as int)
    }
}

/// The operation of one entry.
fn height_op(b: &[u8], table: &Vec<usize>, e: &(std::ops::Range<usize>, Decoration)) -> (r: Option<HeightOp>)
    requires
        is_line_table(b@, table@),
    ensures
        r == height_op_of(b@, e.0.start as int, e.1),
{
    let line = line_of_exec(b, table, e.0.start);
    match &e.1 {
        Decoration::Line(l) => if l.hide {
            Some(HeightOp::Hide { line })
        } else {
            match l.height_scale {
                Some(s) => Some(HeightOp::Scale { line, scale: s }),
                None => None,
            }
        },
        Decoration::Block(bd) => Some(HeightOp::Block { line, side: bd.side, height: bd.height }),
        Decoration::BlockWidget { side, widget_id } => Some(
            HeightOp::BlockWidget { line, side: *side, widget_id: *widget_id },
        ),
        Decoration::InlineWidget { widget, .. } => Some(HeightOp::InlineWidget { line, widget_id: widget.id }),
        Decoration::HostInlineWidget { widget_id, .. } => Some(
            HeightOp::InlineWidget { line, widget_id: *widget_id },
        ),
        _ => None,
    }
}

/// The height operations that the host's height layers ask of the height
/// map of `text`, layer by layer and entry by entry (see [`height_ops`]).
/// `height_layers` are the decoration sets the host registered as
/// height-tracked (hidden and scaled lines, blocks, and the inline widgets
/// whose rows grow to fit them); every entry of each is read, whatever it
/// holds, and sets painted only are not passed.
pub fn height_plan(text: &str, height_layers: &Vec<DecorationSet>) -> (ops: Vec<HeightOp>)
    ensures
        ops@ == height_ops(text.spec_bytes(), height_layers@, height_layers@.len() as int),
{
    let b = text.as_bytes();
    let table = line_start_table(b);
    let mut ops: Vec<HeightOp> = Vec::new();
    let mut k: usize = 0;
    while k < height_layers.len()
        invariant
            is_line_table(b@, table@),
            b@ == text.spec_bytes(),
            k <= height_layers@.len(),
            ops@ == height_ops(b@, height_layers@, k as int),
        decreases height_layers@.len() - k,
    {
        let set = &height_layers[k];
        let ghost before = ops@;
        let mut i: usize = 0;
        while i < set.entries.len()
            invariant
                is_line_table(b@, table@),
                i <= set.entries@.len(),
                ops@ == before + set_ops(b@, set.entries@, i as int),
            decreases set.entries@.len() - i,
        {
            let e = &set.entries[i];
            if e.0.start <= b.len() {
                match height_op(b, &table, e) {
                    Some(op) => {
                        ops.push(op);
                    },
                    None => {},
                }
            }
            i = i + 1;
        }
        k = k + 1;
    }
    ops
}

} // verus!
