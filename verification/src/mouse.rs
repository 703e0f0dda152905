//! Pointer→buffer decisions of the mouse-button state machine (press /
//! drag / release): which selection a press makes, how a drag extends an
//! anchored range, how a text drag moves the selected text, and the
//! click-pattern lookup double/triple clicks rely on.
//!
//! Pointer geometry (pixel positions, the drag-distance threshold) stays with
//! the host; these functions take buffer offsets and report what to do.

use vstd::prelude::*;
use vstd::string::*;

use crate::document::EditorState;
use crate::document::SelRange;
use crate::document::Selection;

verus! {

broadcast use vstd::seq::group_seq_axioms;

/// Spans `(start, end)` that lie in a text of `len` bytes, in order and
/// without overlap: the shape of `find_iter`'s matches.
pub open spec fn match_spans_ok(spans: Seq<(usize, usize)>, len: int) -> bool {
    &&& forall|k: int| 0 <= k < spans.len() ==> (#[trigger] spans[k]).0 <= spans[k].1 <= len
    &&& forall|k: int| 0 <= k < spans.len() - 1 ==> (#[trigger] spans[k]).1 <= spans[k + 1].0
}

/// Whether `regex::Regex::new` compiles the pattern with characters
/// `pattern` (default options), a function of the pattern alone.
pub uninterp spec fn regex_valid(pattern: Seq<char>) -> bool;

/// The byte spans `(start, end)` of `find_iter` over a text with characters
/// `text`, for the expression compiled from `pattern` with default options:
/// the leftmost-first successive non-overlapping matches, a function of the
/// pattern and the text alone.
pub uninterp spec fn regex_matches_of(pattern: Seq<char>, text: Seq<char>) -> Seq<(usize, usize)>;

/// `regex::Regex::new(pattern)` then `find_iter(text)`: `None` exactly when
/// the pattern does not compile ([`regex_valid`]), else the spans of the
/// matches, named [`regex_matches_of`], in order, without overlap and within
/// the text. Which spans match the expression is left to the name.
#[verifier::external_body]
fn regex_find_spans(pattern: &str, text: &str) -> (r: Option<Vec<(usize, usize)>>)
    ensures
        r is Some <==> regex_valid(pattern@),
        r matches Some(v) ==> v@ == regex_matches_of(pattern@, text@) && match_spans_ok(
            v@,
            text.spec_bytes().len() as int,
        ),
{
    match regex::Regex::new(pattern) {
        Ok(re) => Some(re.find_iter(text).map(|m| (m.start(), m.end())).collect()),
        Err(_) => None,
    }
}

/// The first of `spans` that covers `local`, ends included, or `None`.
pub open spec fn first_containing(spans: Seq<(usize, usize)>, local: int) -> Option<(usize, usize)>
    decreases spans.len(),
{
    if spans.len() == 0 {
        None
    } else if spans[0].0 <= local && local <= spans[0].1 {
        Some(spans[0])
    } else {
        first_containing(spans.drop_first(), local)
    }
}

/// The first of `spans` that covers `local`, ends included, or `None`.
pub fn first_span_containing(spans: &Vec<(usize, usize)>, local: usize) -> (r: Option<(usize, usize)>)
    ensures
        r == first_containing(spans@, local as int),
{
    let mut k: usize = 0;
    proof {
        assert(spans@.subrange(0, spans@.len() as int) == spans@);
    }
    while k < spans.len()
        invariant
            k <= spans@.len(),
            first_containing(spans@.subrange(k as int, spans@.len() as int), local as int)
                == first_containing(spans@, local as int),
        decreases spans@.len() - k,
    {
        let (s, e) = spans[k];
        proof {
            let rest = spans@.subrange(k as int, spans@.len() as int);
            assert(rest[0] == spans@[k as int]);
            assert(rest.drop_first() == spans@.subrange(k + 1, spans@.len() as int));
        }
        if s <= local && local <= e {
            return Some((s, e));
        }
        k = k + 1;
    }
    proof {
        assert(spans@.subrange(k as int, spans@.len() as int).len() == 0);
    }
    None
}

proof fn lemma_first_containing(spans: Seq<(usize, usize)>, local: int, len: int)
    requires
        match_spans_ok(spans, len),
    ensures
        first_containing(spans, local) matches Some(se) ==> se.0 <= local <= se.1 <= len,
    decreases spans.len(),
{
    if spans.len() > 0 && !(spans[0].0 <= local && local <= spans[0].1) {
        let rest = spans.drop_first();
        assert forall|k: int| 0 <= k < rest.len() implies (#[trigger] rest[k]).0 <= rest[k].1 <= len by {
            assert(rest[k] == spans[k + 1]);
        }
        assert forall|k: int| 0 <= k < rest.len() - 1 implies (#[trigger] rest[k]).1 <= rest[k + 1].0 by {
            assert(rest[k] == spans[k + 1]);
            assert(rest[k + 1] == spans[k + 2]);
        }
        lemma_first_containing(rest, local, len);
    }
}

/// Byte span (relative to `text`) of the first match of the regular
/// expression `pattern` that contains the click column `local`, ends included
/// so a click at a match's trailing edge still selects it; `None` when no
/// match covers it or the pattern does not compile.
pub fn pattern_span_at(text: &str, local: usize, pattern: &str) -> (r: Option<(usize, usize)>)
    ensures
        regex_valid(pattern@) ==> r == first_containing(regex_matches_of(pattern@, text@), local as int),
        !regex_valid(pattern@) ==> r is None,
        r matches Some(se) ==> se.0 <= local <= se.1 <= text.spec_bytes().len(),
{
    match regex_find_spans(pattern, text) {
        Some(spans) => {
            proof {
                lemma_first_containing(spans@, local as int, text.spec_bytes().len() as int);
            }
            first_span_containing(&spans, local)
        },
        None => None,
    }
}

/// `pos` lies inside a non-empty range of the selection (its end excluded).
pub open spec fn in_nonempty_range(ranges: Seq<SelRange>, pos: int) -> bool {
    exists|k: int|
        0 <= k < ranges.len() && (#[trigger] ranges[k]).anchor != ranges[k].head && ranges[k].spec_start()
            <= pos < ranges[k].spec_end()
}

/// Whether `pos` lies inside some non-empty selection range (end excluded):
/// a plain press there arms a text drag instead of moving the caret.
pub fn pos_in_any_nonempty_range(state: &EditorState, pos: usize) -> (r: bool)
    ensures
        r == in_nonempty_range(state.selection.spec_ranges(), pos as int),
{
    let ranges = state.selection.ranges();
    let mut k: usize = 0;
    while k < ranges.len()
        invariant
            ranges@ == state.selection.spec_ranges(),
            k <= ranges@.len(),
            forall|m: int|
                0 <= m < k ==> !((#[trigger] ranges@[m]).anchor != ranges@[m].head
                    && ranges@[m].spec_start() <= pos < ranges@[m].spec_end()),
        decreases ranges@.len() - k,
    {
        let r = ranges[k];
        if !r.is_empty() && pos >= r.start() && pos < r.end() {
            return true;
        }
        k = k + 1;
    }
    false
}

/// Modifier keys held during a press; `primary` is the platform's command
/// key (Ctrl, or Cmd on macOS).
#[derive(Clone, Copy, Debug, PartialEq, Eq, Structural)]
pub struct Modifiers {
    pub shift: bool,
    pub alt: bool,
    pub primary: bool,
}

/// What a mouse press does.
#[derive(Clone, Copy, Debug, PartialEq, Eq, Structural)]
pub enum PressAction {
    /// Wait and see whether the user drags the selected text or releases.
    ArmTextDrag,
    /// Start a rectangular (column) selection with a caret at the pointer.
    StartRectangle,
    /// Select the click pattern (a word by default) around the pointer.
    SelectWord,
    /// Select the line-pattern match (the whole line by default).
    SelectLine,
    /// Add a caret at the pointer.
    AddCursor,
    /// Extend the main selection from its anchor to the pointer.
    ExtendToPointer,
    /// Place a single caret at the pointer.
    PlaceCaret,
}

/// The action of a press with `click_count` clicks and modifiers `mods`;
/// `in_selection` says whether the pointer lies inside a non-empty selection
/// range. A plain single click inside a selection arms a text drag; an
/// Alt-only single click outside one starts a rectangle; a double click
/// selects a word and a triple click a line; otherwise Alt or a bare primary
/// key adds a caret, Shift extends, and anything else places a caret.
pub open spec fn press_action_spec(click_count: u8, mods: Modifiers, in_selection: bool) -> PressAction {
    if click_count == 1 && !mods.shift && !mods.alt && !mods.primary && in_selection {
        PressAction::ArmTextDrag
    } else if click_count == 1 && mods.alt && !mods.shift && !mods.primary && !in_selection {
        PressAction::StartRectangle
    } else if click_count == 2 {
        PressAction::SelectWord
    } else if click_count == 3 {
        PressAction::SelectLine
    } else if mods.alt || (mods.primary && !mods.shift) {
        PressAction::AddCursor
    } else if mods.shift {
        PressAction::ExtendToPointer
    } else {
        PressAction::PlaceCaret
    }
}

/// The action of a press (see [`press_action_spec`]).
pub fn press_action(click_count: u8, mods: Modifiers, in_selection: bool) -> (r: PressAction)
    ensures
        r == press_action_spec(click_count, mods, in_selection),
{
    if click_count == 1 && !mods.shift && !mods.alt && !mods.primary && in_selection {
        PressAction::ArmTextDrag
    } else if click_count == 1 && mods.alt && !mods.shift && !mods.primary && !in_selection {
        PressAction::StartRectangle
    } else if click_count == 2 {
        PressAction::SelectWord
    } else if click_count == 3 {
        PressAction::SelectLine
    } else if mods.alt || (mods.primary && !mods.shift) {
        PressAction::AddCursor
    } else if mods.shift {
        PressAction::ExtendToPointer
    } else {
        PressAction::PlaceCaret
    }
}

/// The selection a double or triple click makes from the click-pattern
/// span `span` found on the clicked line (relative to `line_start`): that
/// span, or a caret at `pos` when no match covers the click.
pub fn click_pattern_selection(line_start: usize, pos: usize, span: Option<(usize, usize)>) -> (s:
    Selection)
    requires
        span matches Some(se) ==> line_start + se.1 <= usize::MAX,
        span matches Some(se) ==> se.0 <= se.1,
    ensures
        s.spec_main_index() == 0,
        s.spec_ranges() == match span {
            Some(se) => seq![SelRange { anchor: (line_start + se.0) as usize, head: (line_start + se.1) as usize }],
            None => seq![SelRange { anchor: pos, head: pos }],
        },
{
    match span {
        Some((st, en)) => Selection::from_range(SelRange::new(line_start + st, line_start + en)),
        None => Selection::single(pos),
    }
}

/// The range a drag makes from the anchored range `lo..hi` with the pointer
/// at `head`: while the pointer stays within `lo..=hi` it is exactly that
/// range; past either edge it grows to the pointer, with the head on the
/// moving side.
pub open spec fn drag_range_spec(lo: usize, hi: usize, head: usize) -> SelRange {
    let start = if lo <= head {
        lo
    } else {
        head
    };
    let end = if hi >= head {
        hi
    } else {
        head
    };
    if head < lo {
        SelRange { anchor: end, head: start }
    } else {
        SelRange { anchor: start, head: end }
    }
}

/// The range a drag from the anchored range `lo..hi` selects with the
/// pointer at `head` (see [`drag_range_spec`]).
pub fn drag_range(lo: usize, hi: usize, head: usize) -> (r: SelRange)
    ensures
        r == drag_range_spec(lo, hi, head),
{
    let start = if lo <= head {
        lo
    } else {
        head
    };
    let end = if hi >= head {
        hi
    } else {
        head
    };
    if head < lo {
        SelRange::new(end, start)
    } else {
        SelRange::new(start, end)
    }
}

/// A drag never shrinks the anchored range: a selected word survives jitter
/// inside it, and the result always covers both the anchored range and the
/// pointer.
pub proof fn lemma_drag_covers(lo: usize, hi: usize, head: usize)
    requires
        lo <= hi,
    ensures
        drag_range_spec(lo, hi, head).spec_start() <= lo,
        hi <= drag_range_spec(lo, hi, head).spec_end(),
        drag_range_spec(lo, hi, head).spec_start() <= head <= drag_range_spec(lo, hi, head).spec_end(),
        lo <= head <= hi ==> drag_range_spec(lo, hi, head) == (SelRange { anchor: lo, head: hi }),
{
}

/// One edit of a text drag: replace `start..end` by the moved text
/// (`insert`) or by nothing.
#[derive(Clone, Copy, Debug, PartialEq, Eq, Structural)]
pub struct DragEdit {
    pub start: usize,
    pub end: usize,
    pub insert: bool,
}

/// The plan of a text drag: the edits in ascending order of start, and the
/// selection over the moved text afterwards.
#[derive(Debug, PartialEq, Eq)]
pub struct TextDragPlan {
    pub edits: Vec<DragEdit>,
    pub sel_start: usize,
    pub sel_end: usize,
}

/// `p` moves the text `src_start..src_end` to `drop` outside it: the range is
/// removed and the text inserted at the drop, edits sorted by start, and the
/// moved text is selected where it lands (shifted left by its length when
/// dropped after the range).
pub open spec fn text_drag_plan_is(p: TextDragPlan, src_start: usize, src_end: usize, drop: usize) -> bool {
    let new_start = if drop > src_end {
        drop - (src_end - src_start)
    } else {
        drop as int
    };
    &&& p.sel_start == new_start
    &&& p.sel_end == new_start + (src_end - src_start)
    &&& p.edits@ == if drop > src_end {
        seq![
            DragEdit { start: src_start, end: src_end, insert: false },
            DragEdit { start: drop, end: drop, insert: true },
        ]
    } else {
        seq![
            DragEdit { start: drop, end: drop, insert: true },
            DragEdit { start: src_start, end: src_end, insert: false },
        ]
    }
}

/// Dropping the selected range `src_start..src_end` at `drop`: nothing when
/// the drop falls inside the range (ends included); else remove the range
/// and insert its text at the drop, edits sorted by start, and select the
/// moved text where it lands (shifted left by its length when dropped after
/// the range).
pub fn plan_text_drag(src_start: usize, src_end: usize, drop: usize) -> (r: Option<TextDragPlan>)
    requires
        src_start <= src_end,
    ensures
        (drop >= src_start && drop <= src_end) <==> r is None,
        r matches Some(p) ==> text_drag_plan_is(p, src_start, src_end, drop),
{
    if drop >= src_start && drop <= src_end {
        return None;
    }
    let len = src_end - src_start;
    let remove = DragEdit { start: src_start, end: src_end, insert: false };
    let put = DragEdit { start: drop, end: drop, insert: true };
    if drop > src_end {
        let new_start = drop - len;
        Some(TextDragPlan { edits: vec![remove, put], sel_start: new_start, sel_end: new_start + len })
    } else {
        Some(TextDragPlan { edits: vec![put, remove], sel_start: drop, sel_end: drop + len })
    }
}

/// The main range of a rectangle selection spanning `n_ranges` lines from
/// `line_lo`: the pointer's line `cur_line`, clamped into the rectangle.
pub fn rectangle_main(cur_line: usize, line_lo: usize, n_ranges: usize) -> (m: usize)
    requires
        n_ranges >= 1,
    ensures
        m == if cur_line >= line_lo && cur_line - line_lo < n_ranges - 1 {
            cur_line - line_lo
        } else if cur_line >= line_lo {
            n_ranges - 1
        } else {
            0
        },
        m < n_ranges,
{
    let d = if cur_line >= line_lo {
        cur_line - line_lo
    } else {
        0
    };
    if d < n_ranges - 1 {
        d
    } else {
        n_ranges - 1
    }
}

/// The rectangle selection over consecutive lines from `line_lo`: one range
/// `(anchor, head)` per line, the main one on the pointer's line
/// `cur_line` clamped into the rectangle.
pub fn rectangle_selection(pairs: Vec<(usize, usize)>, cur_line: usize, line_lo: usize) -> (s: Selection)
    requires
        pairs@.len() >= 1,
    ensures
        s.spec_ranges().len() == pairs@.len(),
        forall|k: int|
            0 <= k < pairs@.len() ==> #[trigger] s.spec_ranges()[k] == (SelRange {
                anchor: pairs@[k].0,
                head: pairs@[k].1,
            }),
        s.spec_main_index() == if cur_line >= line_lo && cur_line - line_lo < pairs@.len() - 1 {
            cur_line - line_lo
        } else if cur_line >= line_lo {
            pairs@.len() - 1
        } else {
            0
        },
{
    let n = pairs.len();
    let mut ranges: Vec<SelRange> = Vec::new();
    let mut k: usize = 0;
    while k < n
        invariant
            n == pairs@.len(),
            k <= n,
            ranges@.len() == k,
            forall|m: int|
                0 <= m < k ==> #[trigger] ranges@[m] == (SelRange { anchor: pairs@[m].0, head: pairs@[m].1 }),
        decreases n - k,
    {
        let (a, h) = pairs[k];
        ranges.push(SelRange::new(a, h));
        k = k + 1;
    }
    let main = rectangle_main(cur_line, line_lo, n);
    Selection::from_ranges(ranges, main)
}

/// Phase of the pointer-drag state machine in buffer terms. The pixel point
/// where a pending text drag or a rectangle started stays with the host,
/// which tells [`drag_step`] whether the pointer has passed the drag
/// threshold.
#[derive(Clone, Copy, Debug, PartialEq, Eq, Structural)]
pub enum DragPhase {
    /// No button held.
    Idle,
    /// A press made a selection whose main range is `lo..hi`; a drag extends it.
    MaybeSelecting { lo: usize, hi: usize },
    /// A plain press landed inside a selection: a drag past the threshold
    /// moves the selected text, a release places a caret.
    MaybeDraggingSelection,
    /// The selected text is being dragged; it would drop at `drop_caret`.
    DraggingSelection { drop_caret: usize },
    /// A column selection is being drawn.
    RectangleSelecting,
}

/// The phase a press arms, given its action and the main range `made` of the
/// selection it made: a pending text drag, a rectangle, or else a selecting
/// drag anchored on `made` (a point for a plain click, the whole word or line
/// for a double or triple click).
pub open spec fn press_phase_spec(action: PressAction, made: SelRange) -> DragPhase {
    match action {
        PressAction::ArmTextDrag => DragPhase::MaybeDraggingSelection,
        PressAction::StartRectangle => DragPhase::RectangleSelecting,
        _ => DragPhase::MaybeSelecting { lo: made.spec_start(), hi: made.spec_end() },
    }
}

/// The phase a press arms (see [`press_phase_spec`]).
pub fn press_phase(action: PressAction, made: SelRange) -> (p: DragPhase)
    ensures
        p == press_phase_spec(action, made),
{
    match action {
        PressAction::ArmTextDrag => DragPhase::MaybeDraggingSelection,
        PressAction::StartRectangle => DragPhase::RectangleSelecting,
        _ => DragPhase::MaybeSelecting { lo: made.start(), hi: made.end() },
    }
}

/// What a drag event asks of the host.
#[derive(Clone, Copy, Debug, PartialEq, Eq, Structural)]
pub enum DragEffect {
    /// Nothing to apply.
    Nothing,
    /// Select this single range.
    Select(SelRange),
    /// Rebuild the column selection from the pointer (see
    /// [`rectangle_selection`]).
    Rectangle,
}

/// The next phase and effect of a drag with the pointer over buffer offset
/// `head`; `past_threshold` says whether the pointer has moved farther than
/// the drag threshold from where a pending text drag started.
pub open spec fn drag_step_spec(phase: DragPhase, past_threshold: bool, head: usize) -> (DragPhase, DragEffect) {
    match phase {
        DragPhase::MaybeSelecting { lo, hi } => (phase, DragEffect::Select(drag_range_spec(lo, hi, head))),
        DragPhase::MaybeDraggingSelection => if past_threshold {
            (DragPhase::DraggingSelection { drop_caret: head }, DragEffect::Nothing)
        } else {
            (phase, DragEffect::Nothing)
        },
        DragPhase::DraggingSelection { .. } => (
            DragPhase::DraggingSelection { drop_caret: head },
            DragEffect::Nothing,
        ),
        DragPhase::RectangleSelecting => (phase, DragEffect::Rectangle),
        DragPhase::Idle => (phase, DragEffect::Nothing),
    }
}

/// One drag event of the state machine (see [`drag_step_spec`]).
pub fn drag_step(phase: DragPhase, past_threshold: bool, head: usize) -> (r: (DragPhase, DragEffect))
    ensures
        r == drag_step_spec(phase, past_threshold, head),
{
    match phase {
        DragPhase::MaybeSelecting { lo, hi } => (phase, DragEffect::Select(drag_range(lo, hi, head))),
        DragPhase::MaybeDraggingSelection => if past_threshold {
            (DragPhase::DraggingSelection { drop_caret: head }, DragEffect::Nothing)
        } else {
            (phase, DragEffect::Nothing)
        },
        DragPhase::DraggingSelection { .. } => (
            DragPhase::DraggingSelection { drop_caret: head },
            DragEffect::Nothing,
        ),
        DragPhase::RectangleSelecting => (phase, DragEffect::Rectangle),
        DragPhase::Idle => (phase, DragEffect::Nothing),
    }
}

/// What a release asks of the host.
#[derive(Debug, PartialEq, Eq)]
pub enum ReleaseEffect {
    /// Nothing to apply.
    Nothing,
    /// Collapse the selection to a caret at this offset.
    PlaceCaret(usize),
    /// Move the dragged text as planned.
    MoveText(TextDragPlan),
}

/// A release with the pointer over buffer offset `pos` while the main
/// selection range is `src_start..src_end`: the machine always returns to
/// [`DragPhase::Idle`]; a text drag drops the text (or cancels when the drop
/// falls inside the range, see [`plan_text_drag`]); a pending text drag that
/// never passed the threshold was a plain click and places a caret at
/// `pos`; anything else does nothing more.
pub fn release_step(phase: DragPhase, pos: usize, src_start: usize, src_end: usize) -> (r: (
    DragPhase,
    ReleaseEffect,
))
    requires
        src_start <= src_end,
    ensures
        r.0 == DragPhase::Idle,
        match phase {
            DragPhase::DraggingSelection { drop_caret } => {
                &&& (drop_caret >= src_start && drop_caret <= src_end) ==> r.1 == ReleaseEffect::Nothing
                &&& !(drop_caret >= src_start && drop_caret <= src_end) ==> (r.1 matches ReleaseEffect::MoveText(p)
                    && text_drag_plan_is(p, src_start, src_end, drop_caret))
            },
            DragPhase::MaybeDraggingSelection => r.1 == ReleaseEffect::PlaceCaret(pos),
            _ => r.1 == ReleaseEffect::Nothing,
        },
{
    let eff = match phase {
        DragPhase::DraggingSelection { drop_caret } => match plan_text_drag(src_start, src_end, drop_caret) {
            Some(p) => ReleaseEffect::MoveText(p),
            None => ReleaseEffect::Nothing,
        },
        DragPhase::MaybeDraggingSelection => ReleaseEffect::PlaceCaret(pos),
        _ => ReleaseEffect::Nothing,
    };
    (DragPhase::Idle, eff)
}

/// A plain click places a caret and arms a selecting drag anchored on that
/// caret; a press inside a selection that is released before the pointer
/// passes the drag threshold is a plain click after all and collapses the
/// selection to a caret at the release point.
pub proof fn lemma_click_phases(pos: usize, head: usize)
    ensures
        press_phase_spec(PressAction::PlaceCaret, SelRange { anchor: pos, head: pos })
            == (DragPhase::MaybeSelecting { lo: pos, hi: pos }),
        drag_step_spec(DragPhase::MaybeDraggingSelection, false, head).0 == DragPhase::MaybeDraggingSelection,
        drag_step_spec(DragPhase::MaybeDraggingSelection, true, head).0 == (DragPhase::DraggingSelection {
            drop_caret: head,
        }),
{
}

/// While text is being dragged the drop caret follows the pointer: every
/// drag event moves it to the pointer's offset, so the text lands where the
/// button is released. A selecting drag keeps its anchored range and selects
/// that range grown to the pointer; a pending text drag turns into a text
/// drag exactly when the pointer passes the threshold; a rectangle is
/// rebuilt; an idle pointer does nothing.
pub proof fn lemma_drag_step_laws(phase: DragPhase, past_threshold: bool, head: usize)
    ensures
        phase matches DragPhase::DraggingSelection { .. } ==> drag_step_spec(phase, past_threshold, head) == (
        DragPhase::DraggingSelection { drop_caret: head }, DragEffect::Nothing),
        phase matches DragPhase::MaybeSelecting { lo, hi } ==> lo <= hi ==> {
            let r = drag_step_spec(phase, past_threshold, head);
            &&& r.0 == phase
            &&& r.1 matches DragEffect::Select(sr) && sr.spec_start() <= lo && hi <= sr.spec_end()
                && sr.spec_start() <= head <= sr.spec_end() && (lo <= head <= hi ==> sr == (SelRange {
                anchor: lo,
                head: hi,
            })) && (!(lo <= head <= hi) ==> sr.head == head)
        },
        phase == DragPhase::MaybeDraggingSelection && past_threshold ==> drag_step_spec(phase, past_threshold, head)
            == (DragPhase::DraggingSelection { drop_caret: head }, DragEffect::Nothing),
        phase == DragPhase::MaybeDraggingSelection && !past_threshold ==> drag_step_spec(phase, past_threshold, head)
            == (DragPhase::MaybeDraggingSelection, DragEffect::Nothing),
        phase == DragPhase::RectangleSelecting ==> drag_step_spec(phase, past_threshold, head) == (
        DragPhase::RectangleSelecting, DragEffect::Rectangle),
        phase == DragPhase::Idle ==> drag_step_spec(phase, past_threshold, head) == (DragPhase::Idle, DragEffect::Nothing),
{
    if let DragPhase::MaybeSelecting { lo, hi } = phase {
        if lo <= hi {
            lemma_drag_covers(lo, hi, head);
        }
    }
}

/// How modifiers pick a press's action, outside the two single-click special
/// cases (a plain press inside a selection, an Alt-only press outside one) and
/// double/triple clicks: Alt adds a caret whatever Shift is, as does a bare
/// primary key; Shift extends the selection only when neither applies; no
/// modifier places a caret. A double click selects a word and a triple click
/// a line, whatever the modifiers.
pub proof fn lemma_press_modifiers(click_count: u8, mods: Modifiers, in_selection: bool)
    ensures
        ({
            let special = (click_count == 1 && !mods.shift && !mods.alt && !mods.primary && in_selection)
                || (click_count == 1 && mods.alt && !mods.shift && !mods.primary && !in_selection)
                || click_count == 2 || click_count == 3;
            let a = press_action_spec(click_count, mods, in_selection);
            &&& click_count == 1 && !mods.shift && !mods.alt && !mods.primary && in_selection ==> a
                == PressAction::ArmTextDrag
            &&& click_count == 1 && mods.alt && !mods.shift && !mods.primary && !in_selection ==> a
                == PressAction::StartRectangle
            &&& click_count == 2 ==> a == PressAction::SelectWord
            &&& click_count == 3 ==> a == PressAction::SelectLine
            &&& !special && mods.alt ==> a == PressAction::AddCursor
            &&& !special && mods.primary && !mods.shift ==> a == PressAction::AddCursor
            &&& !special && mods.shift && !mods.alt ==> a == PressAction::ExtendToPointer
            &&& !special && !mods.shift && !mods.alt && !mods.primary ==> a == PressAction::PlaceCaret
        }),
{
}

/// The text `t` after applying drag edits sorted by start, later edits first
/// so earlier offsets stay valid: each edit replaces `start..end` by the
/// moved text `moved` when it inserts, else by nothing.
pub open spec fn apply_drag_edits(t: Seq<u8>, edits: Seq<DragEdit>, moved: Seq<u8>) -> Seq<u8>
    decreases edits.len(),
{
    if edits.len() == 0 {
        t
    } else {
        let e = edits.last();
        let put = if e.insert {
            moved
        } else {
            Seq::<u8>::empty()
        };
        apply_drag_edits(
            t.subrange(0, e.start as int) + put + t.subrange(e.end as int, t.len() as int),
            edits.drop_last(),
            moved,
        )
    }
}

/// `t` with the range `s..e` cut out and put back at `drop` (an offset of `t`
/// outside the range).
pub open spec fn moved_text(t: Seq<u8>, s: int, e: int, drop: int) -> Seq<u8> {
    if drop < s {
        t.subrange(0, drop) + t.subrange(s, e) + t.subrange(drop, s) + t.subrange(e, t.len() as int)
    } else {
        t.subrange(0, s) + t.subrange(e, drop) + t.subrange(s, e) + t.subrange(drop, t.len() as int)
    }
}

/// A text drag moves the text: applying a drag plan's edits to the text,
/// with the selected range as the moved text, removes that range and
/// reinserts it at the drop, whichever side the drop is on; the length is
/// kept, and the plan's selection covers exactly the moved text where it
/// lands.
pub proof fn lemma_text_drag_moves(t: Seq<u8>, src_start: usize, src_end: usize, drop: usize, p: TextDragPlan)
    requires
        src_start <= src_end <= t.len(),
        drop <= t.len(),
        !(src_start <= drop <= src_end),
        text_drag_plan_is(p, src_start, src_end, drop),
    ensures
        apply_drag_edits(t, p.edits@, t.subrange(src_start as int, src_end as int)) == moved_text(
            t,
            src_start as int,
            src_end as int,
            drop as int,
        ),
        moved_text(t, src_start as int, src_end as int, drop as int).len() == t.len(),
        0 <= p.sel_start <= p.sel_end <= t.len(),
        moved_text(t, src_start as int, src_end as int, drop as int).subrange(p.sel_start as int, p.sel_end as int)
            == t.subrange(src_start as int, src_end as int),
{
    reveal_with_fuel(apply_drag_edits, 3);
    let s = src_start as int;
    let e = src_end as int;
    let d = drop as int;
    let n = t.len() as int;
    let m = t.subrange(s, e);
    let r = moved_text(t, s, e, d);
    if d > e {
        let t1 = t.subrange(0, d) + m + t.subrange(d, n);
        assert(p.edits@.last() == DragEdit { start: drop, end: drop, insert: true });
        assert(p.edits@.drop_last() == seq![DragEdit { start: src_start, end: src_end, insert: false }]);
        assert(t.subrange(0, d) + m + t.subrange(d, n) =~= t1);
        let t2 = t1.subrange(0, s) + Seq::<u8>::empty() + t1.subrange(e, t1.len() as int);
        assert(t2 =~= r);
        assert(apply_drag_edits(t, p.edits@, m) == apply_drag_edits(t1, p.edits@.drop_last(), m));
        assert(apply_drag_edits(t1, p.edits@.drop_last(), m) == apply_drag_edits(t2, Seq::<DragEdit>::empty(), m));
        assert(r.subrange(p.sel_start as int, p.sel_end as int) =~= m);
    } else {
        let t1 = t.subrange(0, s) + Seq::<u8>::empty() + t.subrange(e, n);
        assert(p.edits@.last() == DragEdit { start: src_start, end: src_end, insert: false });
        assert(p.edits@.drop_last() == seq![DragEdit { start: drop, end: drop, insert: true }]);
        let t2 = t1.subrange(0, d) + m + t1.subrange(d, t1.len() as int);
        assert(t2 =~= r);
        assert(apply_drag_edits(t, p.edits@, m) == apply_drag_edits(t1, p.edits@.drop_last(), m));
        assert(apply_drag_edits(t1, p.edits@.drop_last(), m) == apply_drag_edits(t2, Seq::<DragEdit>::empty(), m));
        assert(r.subrange(p.sel_start as int, p.sel_end as int) =~= m);
    }
}

} // verus!
