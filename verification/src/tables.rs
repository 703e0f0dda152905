//! GFM pipe-table detection.
//!
//! Detects pipe tables (`| a | b |` with a `|---|---|` rule row) by walking
//! the pulldown-cmark parse of the document (GFM tables, strikethrough and
//! task lists enabled). [`table_spans`] reports each table block's byte range
//! and per-column alignments so a host can render it.
//!
//! The parse itself belongs to pulldown-cmark and is named, not restated
//! ([`table_events_of`]): the library sees it as the sequence of its events
//! that matter here — table starts with their alignments, table ends with
//! their byte ranges, and everything else. [`table_spans_from_events`] turns
//! that sequence into spans and is verified for every event sequence.

use vstd::prelude::*;

use pulldown_cmark::Alignment;
use pulldown_cmark::Event;
use pulldown_cmark::Options;
use pulldown_cmark::Parser;
use pulldown_cmark::Tag;
use pulldown_cmark::TagEnd;

use crate::decoration::copy_range;
use crate::document::EditorState;

verus! {

broadcast use vstd::seq::group_seq_axioms;

/// Per-column horizontal alignment of a detected pipe table, taken from the
/// GFM delimiter row (`:--`, `:-:`, `--:`). `Unspecified` means the column
/// had no explicit alignment marker.
#[derive(Clone, Copy, Debug, PartialEq, Eq, Structural)]
pub enum ColumnAlign {
    Unspecified,
    Left,
    Center,
    Right,
}

/// A detected pipe-table block: the full source byte range (header, rule and
/// body rows inclusive) and the per-column alignments. A malformed table (no
/// rule row) is no GFM table and is never reported.
#[derive(Debug, PartialEq, Eq)]
pub struct TableSpan {
    pub byte_range: std::ops::Range<usize>,
    pub aligns: Vec<ColumnAlign>,
}

impl Clone for TableSpan {
    fn clone(&self) -> (s: TableSpan)
        ensures
            s.byte_range == self.byte_range,
            s.aligns@ == self.aligns@,
    {
        TableSpan { byte_range: copy_range(&self.byte_range), aligns: copy_aligns(&self.aligns) }
    }
}

/// The parse events table detection reads.
#[derive(Debug, PartialEq, Eq)]
pub enum TableEvent {
    /// A table starts, with the alignment of each column.
    Start(Vec<ColumnAlign>),
    /// A table ends; the event covers the table's byte range `start..end`.
    End(usize, usize),
    /// Any other event.
    Other,
}

/// What the pulldown-cmark parse (tables, strikethrough, task lists and GFM
/// enabled) of a text with characters `text` yields, event by event, as
/// [`TableEvent`]s: a function of the text alone.
pub uninterp spec fn table_events_of(text: Seq<char>) -> Seq<TableEvent>;

/// The events of `pulldown_cmark::Parser::new_ext(text, opts)
/// .into_offset_iter()` with tables, strikethrough, task lists and GFM
/// enabled, each converted to a [`TableEvent`]: a table start keeps its
/// alignments, a table end its byte range, every other event becomes
/// `Other`.
#[verifier::external_body]
fn table_events(text: &str) -> (r: Vec<TableEvent>)
    ensures
        r@ == table_events_of(text@),
{
    let opts = Options::ENABLE_STRIKETHROUGH | Options::ENABLE_TABLES | Options::ENABLE_TASKLISTS
        | Options::ENABLE_GFM;
    Parser::new_ext(text, opts).into_offset_iter().map(|(event, range)| match event {
        Event::Start(Tag::Table(aligns)) => TableEvent::Start(aligns.iter().map(|a| match a {
            Alignment::None => ColumnAlign::Unspecified,
            Alignment::Left => ColumnAlign::Left,
            Alignment::Center => ColumnAlign::Center,
            Alignment::Right => ColumnAlign::Right,
        }).collect()),
        Event::End(TagEnd::Table) => TableEvent::End(range.start, range.end),
        _ => TableEvent::Other,
    }).collect()
}

/// The byte range `start..end` overlaps the viewport (always, without one).
pub open spec fn overlaps_viewport(start: int, end: int, viewport: Option<&std::ops::Range<usize>>) -> bool {
    match viewport {
        Some(vp) => start < vp.end && end > vp.start,
        None => true,
    }
}

/// The tables of `events[i..]`, as `(start, end, aligns)`, with `pending`
/// the alignments of a table whose start came before `i` and whose end has
/// not come yet. A table is reported at its end when a start is pending and
/// its range overlaps the viewport.
pub open spec fn tables_from(
    events: Seq<TableEvent>,
    i: int,
    pending: Option<Seq<ColumnAlign>>,
    viewport: Option<&std::ops::Range<usize>>,
) -> Seq<(int, int, Seq<ColumnAlign>)>
    decreases events.len() - i,
{
    if i < 0 || i >= events.len() {
        seq![]
    } else {
        match events[i] {
            TableEvent::Start(a) => tables_from(events, i + 1, Some(a@), viewport),
            TableEvent::End(s, e) => match pending {
                Some(a) => (if overlaps_viewport(s as int, e as int, viewport) {
                    seq![(s as int, e as int, a)]
                } else {
                    seq![]
                }) + tables_from(events, i + 1, None, viewport),
                None => tables_from(events, i + 1, None, viewport),
            },
            TableEvent::Other => tables_from(events, i + 1, pending, viewport),
        }
    }
}

/// `res` reports exactly the tables `ts`, in order.
pub open spec fn spans_are(res: Seq<TableSpan>, ts: Seq<(int, int, Seq<ColumnAlign>)>) -> bool {
    &&& res.len() == ts.len()
    &&& forall|k: int|
        0 <= k < res.len() ==> {
            &&& (#[trigger] res[k]).byte_range.start == ts[k].0
            &&& res[k].byte_range.end == ts[k].1
            &&& res[k].aligns@ == ts[k].2
        }
}

fn copy_aligns(v: &Vec<ColumnAlign>) -> (r: Vec<ColumnAlign>)
    ensures
        r@ == v@,
{
    let mut r: Vec<ColumnAlign> = Vec::new();
    let mut i: usize = 0;
    while i < v.len()
        invariant
            i <= v@.len(),
            r@ == v@.take(i as int),
        decreases v@.len() - i,
    {
        r.push(v[i]);
        proof {
            assert(v@.take(i + 1) == v@.take(i as int).push(v@[i as int]));
        }
        i = i + 1;
    }
    proof {
        assert(v@.take(v@.len() as int) == v@);
    }
    r
}

/// The table spans of a parse's `events`, viewport-scoped: a table start
/// records its alignments; the table end that follows reports the table's
/// range with them when the range overlaps the viewport. Tables overlapping
/// the viewport are reported in full.
pub fn table_spans_from_events(events: &Vec<TableEvent>, viewport: Option<&std::ops::Range<usize>>) -> (res:
    Vec<TableSpan>)
    ensures
        spans_are(res@, tables_from(events@, 0, None, viewport)),
{
    let mut spans: Vec<TableSpan> = Vec::new();
    let mut pending: Option<Vec<ColumnAlign>> = None;
    let ghost mut acc: Seq<(int, int, Seq<ColumnAlign>)> = seq![];
    let mut i: usize = 0;
    while i < events.len()
        invariant
            i <= events@.len(),
            acc + tables_from(
                events@,
                i as int,
                match pending {
                    Some(a) => Some(a@),
                    None => None,
                },
                viewport,
            ) == tables_from(events@, 0, None, viewport),
            spans_are(spans@, acc),
        decreases events@.len() - i,
    {
        match &events[i] {
            TableEvent::Start(a) => {
                pending = Some(copy_aligns(a));
            },
            TableEvent::End(s, e) => {
                match pending {
                    Some(a) => {
                        let overlaps = match viewport {
                            Some(vp) => *s < vp.end && *e > vp.start,
                            None => true,
                        };
                        if overlaps {
                            let ghost before = spans@;
                            let ghost t = (*s as int, *e as int, a@);
                            spans.push(TableSpan { byte_range: *s..*e, aligns: a });
                            proof {
                                assert(spans_are(spans@, acc.push(t))) by {
                                    assert forall|k: int| 0 <= k < spans@.len() implies {
                                        &&& (#[trigger] spans@[k]).byte_range.start == acc.push(t)[k].0
                                        &&& spans@[k].byte_range.end == acc.push(t)[k].1
                                        &&& spans@[k].aligns@ == acc.push(t)[k].2
                                    } by {
                                        if k < before.len() {
                                            assert(spans@[k] == before[k]);
                                        }
                                    }
                                }
                                assert(seq![t] + tables_from(events@, i + 1, None, viewport) == tables_from(
                                    events@,
                                    i as int,
                                    Some(t.2),
                                    viewport,
                                ));
                                assert(acc.push(t) + tables_from(events@, i + 1, None, viewport) == acc + (
                                seq![t] + tables_from(events@, i + 1, None, viewport)));
                                acc = acc.push(t);
                            }
                        } else {
                            proof {
                                assert(tables_from(events@, i as int, Some(a@), viewport) == tables_from(
                                    events@,
                                    i + 1,
                                    None,
                                    viewport,
                                ));
                            }
                        }
                        pending = None;
                    },
                    None => {},
                }
            },
            TableEvent::Other => {},
        }
        i = i + 1;
    }
    spans
}

/// Scan the document (viewport-scoped) for GFM pipe-table blocks, reporting
/// each table's byte range and column alignments.
pub fn table_spans(state: &EditorState, viewport: Option<&std::ops::Range<usize>>) -> (res: Vec<
    TableSpan,
>)
    ensures
        spans_are(res@, tables_from(table_events_of(state.doc.text@), 0, None, viewport)),
{
    let events = table_events(state.doc.as_str());
    table_spans_from_events(&events, viewport)
}

/// Every reported table overlaps the viewport, and comes from a table end
/// event of the parse.
pub proof fn lemma_tables_in_viewport(
    events: Seq<TableEvent>,
    i: int,
    pending: Option<Seq<ColumnAlign>>,
    viewport: Option<&std::ops::Range<usize>>,
)
    ensures
        forall|k: int|
            0 <= k < tables_from(events, i, pending, viewport).len() ==> {
                let t = #[trigger] tables_from(events, i, pending, viewport)[k];
                &&& overlaps_viewport(t.0, t.1, viewport)
                &&& exists|j: int|
                    i <= j < events.len() && #[trigger] events[j] == TableEvent::End(
                        t.0 as usize,
                        t.1 as usize,
                    )
            },
    decreases events.len() - i,
{
    if 0 <= i < events.len() {
        match events[i] {
            TableEvent::Start(a) => {
                lemma_tables_in_viewport(events, i + 1, Some(a@), viewport);
                assert(tables_from(events, i, pending, viewport) == tables_from(
                    events,
                    i + 1,
                    Some(a@),
                    viewport,
                ));
            },
            TableEvent::End(s, e) => {
                lemma_tables_in_viewport(events, i + 1, None, viewport);
                let rest = tables_from(events, i + 1, None, viewport);
                let all = tables_from(events, i, pending, viewport);
                match pending {
                    Some(a) => {
                        if overlaps_viewport(s as int, e as int, viewport) {
                            assert(all == seq![(s as int, e as int, a)] + rest);
                            assert forall|k: int| 0 <= k < all.len() implies {
                                let t = #[trigger] all[k];
                                &&& overlaps_viewport(t.0, t.1, viewport)
                                &&& exists|j: int|
                                    i <= j < events.len() && #[trigger] events[j] == TableEvent::End(
                                        t.0 as usize,
                                        t.1 as usize,
                                    )
                            } by {
                                if k == 0 {
                                    assert(events[i] == TableEvent::End(s, e));
                                } else {
                                    assert(all[k] == rest[k - 1]);
                                }
                            }
                        } else {
                            assert(all == rest);
                        }
                    },
                    None => {
                        assert(all == rest);
                    },
                }
            },
            TableEvent::Other => {
                lemma_tables_in_viewport(events, i + 1, pending, viewport);
                assert(tables_from(events, i, pending, viewport) == tables_from(
                    events,
                    i + 1,
                    pending,
                    viewport,
                ));
            },
        }
    }
}

} // verus!
