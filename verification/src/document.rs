//! The editor state the decoration providers read: the document text with its
//! line structure, and the selection.
//!
//! Lines are split after every `\n`: a document with `k` newlines has `k + 1`
//! lines, the last of which may be empty. `line_start(l)` is the byte offset
//! of line `l`, `line_of(x)` the line holding byte offset `x` (an offset past
//! the end maps to the last line).

use vstd::prelude::*;
use vstd::string::*;
use vstd::utf8::*;

use crate::text::NL;

verus! {

broadcast use vstd::seq::group_seq_axioms;

/// Starts of the lines that begin at or before byte offset `n`: offset 0 and
/// every offset just past a `\n` within `b[..n]`, in increasing order.
pub open spec fn line_starts_upto(b: Seq<u8>, n: int) -> Seq<int>
    decreases n,
{
    if n <= 0 {
        seq![0]
    } else if b[n - 1] == NL {
        line_starts_upto(b, n - 1).push(n)
    } else {
        line_starts_upto(b, n - 1)
    }
}

/// Start offsets of every line of `b`.
pub open spec fn line_starts(b: Seq<u8>) -> Seq<int> {
    line_starts_upto(b, b.len() as int)
}

/// Number of lines of `b` (one more than its number of newlines).
pub open spec fn line_count(b: Seq<u8>) -> int {
    line_starts(b).len() as int
}

/// Byte offset at which line `l` starts.
pub open spec fn line_start(b: Seq<u8>, l: int) -> int {
    line_starts(b)[l]
}

/// Byte offset just past line `l`, its newline included: the start of the
/// next line, or the end of the text for the last line.
pub open spec fn line_end(b: Seq<u8>, l: int) -> int {
    if l + 1 < line_count(b) {
        line_starts(b)[l + 1]
    } else {
        b.len() as int
    }
}

/// End of line `l`'s content: [`line_end`] without the trailing `\n`.
pub open spec fn line_content_end(b: Seq<u8>, l: int) -> int {
    if l + 1 < line_count(b) {
        line_starts(b)[l + 1] - 1
    } else {
        b.len() as int
    }
}

/// The line holding byte offset `x`, clamped to the text: the number of
/// newlines before `x`.
pub open spec fn line_of(b: Seq<u8>, x: int) -> int {
    let c = if x < 0 {
        0
    } else if x > b.len() {
        b.len() as int
    } else {
        x
    };
    line_starts_upto(b, c).len() - 1
}

/// Shape of [`line_starts_upto`]: it starts at 0, increases strictly, stays
/// within `0..=n`, and holds exactly the offsets just past a newline.
pub proof fn lemma_line_starts_shape(b: Seq<u8>, n: int)
    requires
        0 <= n <= b.len(),
    ensures
        line_starts_upto(b, n).len() >= 1,
        line_starts_upto(b, n)[0] == 0,
        forall|i: int, j: int|
            0 <= i < j < line_starts_upto(b, n).len() ==> line_starts_upto(b, n)[i]
                < line_starts_upto(b, n)[j],
        forall|i: int|
            0 <= i < line_starts_upto(b, n).len() ==> 0 <= #[trigger] line_starts_upto(b, n)[i]
                <= n,
        forall|i: int|
            0 < i < line_starts_upto(b, n).len() ==> b[#[trigger] line_starts_upto(b, n)[i] - 1]
                == NL,
        forall|p: int|
            1 <= p <= n && b[p - 1] == NL ==> #[trigger] line_starts_upto(b, n).contains(p),
    decreases n,
{
    if n > 0 {
        lemma_line_starts_shape(b, n - 1);
        let prev = line_starts_upto(b, n - 1);
        let cur = line_starts_upto(b, n);
        assert forall|p: int| 1 <= p <= n && b[p - 1] == NL implies #[trigger] cur.contains(p) by {
            if p == n {
                assert(cur[cur.len() - 1] == n);
            } else {
                assert(prev.contains(p));
                let k = choose|k: int| 0 <= k < prev.len() && prev[k] == p;
                assert(cur[k] == p);
            }
        }
    }
}

/// A shorter prefix's line starts are a prefix of a longer one's, and the
/// remaining starts lie beyond the shorter prefix.
pub proof fn lemma_line_starts_prefix(b: Seq<u8>, x: int, n: int)
    requires
        0 <= x <= n <= b.len(),
    ensures
        line_starts_upto(b, x).len() <= line_starts_upto(b, n).len(),
        forall|i: int|
            0 <= i < line_starts_upto(b, x).len() ==> #[trigger] line_starts_upto(b, n)[i]
                == line_starts_upto(b, x)[i],
        forall|i: int|
            line_starts_upto(b, x).len() <= i < line_starts_upto(b, n).len()
                ==> #[trigger] line_starts_upto(b, n)[i] > x,
    decreases n - x,
{
    if x < n {
        lemma_line_starts_prefix(b, x, n - 1);
        lemma_line_starts_shape(b, n);
    }
}

/// The document text.
pub struct Document {
    pub text: String,
}

impl Document {
    /// The UTF-8 bytes of the text.
    pub open spec fn bytes(&self) -> Seq<u8> {
        encode_utf8(self.text@)
    }

    pub fn new(text: &str) -> (d: Document)
        ensures
            d.text@ == text@,
    {
        Document { text: text.to_owned() }
    }

    pub fn as_str(&self) -> (s: &str)
        ensures
            s@ == self.text@,
            s.spec_bytes() == self.bytes(),
    {
        self.text.as_str()
    }

    pub fn len_bytes(&self) -> (n: usize)
        ensures
            n == self.bytes().len(),
    {
        self.text.as_str().as_bytes().len()
    }
}

/// Start offsets of every line of `b`.
pub fn line_start_table(b: &[u8]) -> (v: Vec<usize>)
    ensures
        is_line_table(b@, v@),
{
    let mut v: Vec<usize> = Vec::new();
    v.push(0);
    let mut i: usize = 0;
    while i < b.len()
        invariant
            i <= b@.len(),
            v@.len() == line_starts_upto(b@, i as int).len(),
            forall|k: int|
                0 <= k < v@.len() ==> v@[k] as int == #[trigger] line_starts_upto(b@, i as int)[k],
        decreases b@.len() - i,
    {
        if b[i] == NL {
            v.push(i + 1);
        }
        i = i + 1;
    }
    v
}

/// The line holding byte offset `x`, looked up in a [`line_start_table`].
pub fn line_of_exec(b: &[u8], table: &Vec<usize>, x: usize) -> (l: usize)
    requires
        is_line_table(b@, table@),
    ensures
        l as int == line_of(b@, x as int),
        l < table@.len(),
{
    let c = if x > b.len() {
        b.len()
    } else {
        x
    };
    proof {
        lemma_line_starts_prefix(b@, c as int, b@.len() as int);
        lemma_line_starts_shape(b@, c as int);
        lemma_line_starts_shape(b@, b@.len() as int);
    }
    let ghost m = line_starts_upto(b@, c as int).len() as int;
    let mut l: usize = 0;
    while l < table.len() - 1 && table[l + 1] <= c
        invariant
            m == line_starts_upto(b@, c as int).len(),
            c <= b@.len(),
            forall|i: int|
                0 <= i < m ==> #[trigger] line_starts_upto(b@, c as int)[i] <= c,
            table@.len() == line_count(b@),
            forall|i: int|
                0 <= i < table@.len() ==> table@[i] as int == #[trigger] line_starts(b@)[i],
            0 <= l < m,
            m <= table@.len(),
            forall|i: int|
                0 <= i < m ==> #[trigger] line_starts(b@)[i] == line_starts_upto(b@, c as int)[i],
            forall|i: int| m <= i < table@.len() ==> #[trigger] line_starts(b@)[i] > c,
        decreases table@.len() - l,
    {
        l = l + 1;
        assert(table@[l as int] as int == line_starts(b@)[l as int]);
    }
    proof {
        if (l + 1) < table@.len() {
            assert(table@[l + 1] as int == line_starts(b@)[l + 1]);
            if l + 1 < m {
                assert(line_starts(b@)[l + 1] == line_starts_upto(b@, c as int)[l + 1]);
                assert(line_starts_upto(b@, c as int)[l + 1] <= c);
            }
        }
    }
    l
}

/// The line range `first..end` a byte viewport covers: from the line holding
/// its start through the line holding its end. Without a viewport, every
/// line.
pub open spec fn viewport_line_range(b: Seq<u8>, viewport: Option<&std::ops::Range<usize>>) -> (
    int,
    int,
) {
    match viewport {
        Some(vp) => {
            let first = line_of(b, vp.start as int);
            let last = line_of(b, vp.end as int);
            (first, if last + 1 < line_count(b) { last + 1 } else { line_count(b) })
        },
        None => (0, line_count(b)),
    }
}

/// The viewport's line range lies within the document's lines.
pub proof fn lemma_viewport_line_range_bounds(b: Seq<u8>, viewport: Option<&std::ops::Range<usize>>)
    ensures
        0 <= viewport_line_range(b, viewport).0,
        viewport_line_range(b, viewport).1 <= line_count(b),
{
    lemma_lines(b);
    match viewport {
        Some(vp) => {
            let c = if vp.start > b.len() {
                b.len() as int
            } else {
                vp.start as int
            };
            lemma_line_starts_shape(b, c);
        },
        None => {},
    }
}

/// Exec form of [`viewport_line_range`] over a [`line_start_table`].
pub fn viewport_lines(b: &[u8], table: &Vec<usize>, viewport: Option<&std::ops::Range<usize>>) -> (r: (
    usize,
    usize,
))
    requires
        is_line_table(b@, table@),
    ensures
        (r.0 as int, r.1 as int) == viewport_line_range(b@, viewport),
        r.0 < table@.len(),
        r.1 <= table@.len(),
{
    proof {
        lemma_lines(b@);
    }
    match viewport {
        Some(vp) => {
            let first = line_of_exec(b, table, vp.start);
            let last = line_of_exec(b, table, vp.end);
            let end = if last < table.len() - 1 {
                last + 1
            } else {
                table.len()
            };
            (first, end)
        },
        None => (0, table.len()),
    }
}

/// A selection range from `anchor` to `head` (either order).
#[derive(Clone, Copy, Debug, PartialEq, Eq, Structural)]
pub struct SelRange {
    pub anchor: usize,
    pub head: usize,
}

impl SelRange {
    pub open spec fn spec_start(self) -> usize {
        if self.anchor <= self.head {
            self.anchor
        } else {
            self.head
        }
    }

    pub open spec fn spec_end(self) -> usize {
        if self.anchor <= self.head {
            self.head
        } else {
            self.anchor
        }
    }

    pub fn new(anchor: usize, head: usize) -> (r: SelRange)
        ensures
            r == (SelRange { anchor, head }),
    {
        SelRange { anchor, head }
    }

    /// The lower end of the range.
    pub fn start(&self) -> (r: usize)
        ensures
            r == self.spec_start(),
    {
        if self.anchor <= self.head {
            self.anchor
        } else {
            self.head
        }
    }

    /// The upper end of the range.
    pub fn end(&self) -> (r: usize)
        ensures
            r == self.spec_end(),
    {
        if self.anchor <= self.head {
            self.head
        } else {
            self.anchor
        }
    }

    /// A caret: anchor and head coincide.
    pub fn is_empty(&self) -> (r: bool)
        ensures
            r == (self.anchor == self.head),
    {
        self.anchor == self.head
    }
}

/// One or more selection ranges, one of which is the main range.
#[derive(Debug)]
pub struct Selection {
    ranges: Vec<SelRange>,
    main: usize,
}

impl Selection {
    #[verifier::type_invariant]
    spec fn wf(self) -> bool {
        self.main < self.ranges@.len()
    }

    /// The ranges of the selection.
    pub closed spec fn spec_ranges(self) -> Seq<SelRange> {
        self.ranges@
    }

    /// Index of the main range.
    pub closed spec fn spec_main_index(self) -> int {
        self.main as int
    }

    /// The main range.
    pub open spec fn spec_main(self) -> SelRange {
        self.spec_ranges()[self.spec_main_index()]
    }

    /// A single caret at `pos`.
    pub fn single(pos: usize) -> (s: Selection)
        ensures
            s.spec_ranges() == seq![SelRange { anchor: pos, head: pos }],
            s.spec_main_index() == 0,
    {
        let mut ranges: Vec<SelRange> = Vec::new();
        ranges.push(SelRange { anchor: pos, head: pos });
        Selection { ranges, main: 0 }
    }

    /// A single range.
    pub fn from_range(r: SelRange) -> (s: Selection)
        ensures
            s.spec_ranges() == seq![r],
            s.spec_main_index() == 0,
    {
        let mut ranges: Vec<SelRange> = Vec::new();
        ranges.push(r);
        Selection { ranges, main: 0 }
    }

    /// Several ranges with `main` the index of the main one.
    pub fn from_ranges(ranges: Vec<SelRange>, main: usize) -> (s: Selection)
        requires
            main < ranges@.len(),
        ensures
            s.spec_ranges() == ranges@,
            s.spec_main_index() == main,
    {
        Selection { ranges, main }
    }

    /// The main range.
    pub fn main(&self) -> (r: SelRange)
        ensures
            r == self.spec_main(),
    {
        proof {
            use_type_invariant(self);
        }
        self.ranges[self.main]
    }

    /// All ranges.
    pub fn ranges(&self) -> (r: &Vec<SelRange>)
        ensures
            r@ == self.spec_ranges(),
    {
        &self.ranges
    }
}

impl Clone for Selection {
    fn clone(&self) -> (s: Selection)
        ensures
            s.spec_ranges() == self.spec_ranges(),
            s.spec_main_index() == self.spec_main_index(),
    {
        proof {
            use_type_invariant(self);
        }
        let mut ranges: Vec<SelRange> = Vec::new();
        let mut i: usize = 0;
        while i < self.ranges.len()
            invariant
                i <= self.ranges@.len(),
                ranges@ == self.ranges@.subrange(0, i as int),
            decreases self.ranges@.len() - i,
        {
            ranges.push(self.ranges[i]);
            i = i + 1;
        }
        assert(ranges@ == self.ranges@);
        Selection { ranges, main: self.main }
    }
}

/// The editor state the providers read: the document and the selection.
pub struct EditorState {
    pub doc: Document,
    pub selection: Selection,
}

impl EditorState {
    /// A state holding `text` with the caret at offset 0.
    pub fn new(text: &str) -> (s: EditorState)
        ensures
            s.doc.text@ == text@,
            s.selection.spec_ranges() == seq![SelRange { anchor: 0, head: 0 }],
            s.selection.spec_main_index() == 0,
    {
        EditorState { doc: Document::new(text), selection: Selection::single(0) }
    }

    /// Byte offset of the main caret.
    pub open spec fn spec_cursor(&self) -> usize {
        self.selection.spec_main().head
    }
}

/// `t` holds the start of every line of `b`, in order.
pub open spec fn is_line_table(b: Seq<u8>, t: Seq<usize>) -> bool {
    &&& t.len() == line_count(b)
    &&& forall|i: int| 0 <= i < t.len() ==> t[i] as int == #[trigger] line_starts(b)[i]
}

/// Line starts begin at 0, increase strictly and stay within the text; every
/// line's content lies within its extent.
pub proof fn lemma_lines(b: Seq<u8>)
    ensures
        line_count(b) >= 1,
        line_starts(b)[0] == 0,
        forall|i: int, j: int|
            0 <= i < j < line_count(b) ==> line_starts(b)[i] < line_starts(b)[j],
        forall|i: int| 0 <= i < line_count(b) ==> 0 <= #[trigger] line_starts(b)[i] <= b.len(),
        forall|l: int|
            0 <= l < line_count(b) ==> line_start(b, l) <= #[trigger] line_content_end(b, l)
                <= line_end(b, l) <= b.len(),
        forall|l: int|
            0 <= l && l + 1 < line_count(b) ==> #[trigger] line_end(b, l) == line_start(b, l + 1),
{
    lemma_line_starts_shape(b, b.len() as int);
    assert forall|l: int| 0 <= l < line_count(b) implies line_start(b, l)
        <= #[trigger] line_content_end(b, l) <= line_end(b, l) <= b.len() by {
        if l + 1 < line_count(b) {
            assert(line_starts(b)[l] < line_starts(b)[l + 1]);
        }
    }
}

/// Start of line `l`.
pub fn line_start_at(b: &[u8], table: &Vec<usize>, l: usize) -> (r: usize)
    requires
        is_line_table(b@, table@),
        l < table@.len(),
    ensures
        r as int == line_start(b@, l as int),
{
    table[l]
}

/// End of line `l`, newline included.
pub fn line_end_at(b: &[u8], table: &Vec<usize>, l: usize) -> (r: usize)
    requires
        is_line_table(b@, table@),
        l < table@.len(),
    ensures
        r as int == line_end(b@, l as int),
{
    if l < table.len() - 1 {
        table[l + 1]
    } else {
        b.len()
    }
}

/// End of line `l`'s content, newline excluded.
pub fn line_content_end_at(b: &[u8], table: &Vec<usize>, l: usize) -> (r: usize)
    requires
        is_line_table(b@, table@),
        l < table@.len(),
    ensures
        r as int == line_content_end(b@, l as int),
{
    proof {
        lemma_lines(b@);
    }
    if l < table.len() - 1 {
        assert(line_starts(b@)[0] < line_starts(b@)[l + 1]);
        table[l + 1] - 1
    } else {
        b.len()
    }
}

} // verus!
