//! Wikilink decorations: `[[Target]]`, vault markdown links and block
//! markers.
//!
//! When the cursor is off a link's line the whole `[[…]]` span collapses to a
//! styled link pill; with the cursor on the line the raw markdown stays
//! visible for editing. The body of a wikilink is its target verbatim: a bare
//! basename or a workspace-relative path without the `.md` extension.
//!
//! A host may pass a title resolver mapping a link target to the note's
//! current title. With one, links render as clickable [`WikilinkWidget`]
//! pills carrying the live title, whose click id carries
//! [`WIKILINK_WIDGET_TAG`]; a target the resolver cannot place renders in an
//! unresolved style. Without one, links fall back to a plain `Replace`.
//!
//! The work is split in three: a verified scan that finds every link site and
//! the query each one puts to the resolver ([`wikilink_queries`]), the
//! resolver calls themselves, and a verified builder that turns the sites and
//! the resolver's answers into decorations
//! ([`wikilink_decorations_with_titles`]).

use vstd::prelude::*;
use vstd::string::*;
use vstd::utf8::*;

use crate::decoration::Color;
use crate::decoration::Decoration;
use crate::decoration::DecorationSet;
use crate::decoration::MarkStyle;
use crate::decoration::Theme;
use crate::decoration::WikilinkWidget;
use crate::decoration::entries_are;
use crate::document::EditorState;
use crate::document::is_line_table;
use crate::document::lemma_lines;
use crate::document::line_content_end;
use crate::document::line_content_end_at;
use crate::document::line_count;
use crate::document::line_of;
use crate::document::line_of_exec;
use crate::document::line_start;
use crate::document::line_start_at;
use crate::document::line_start_table;
use crate::text::NL;
use crate::text::ascii_lower;
use crate::text::contains_byte;
use crate::text::contains_byte_exec;
use crate::text::eq_ignore_ascii_case;
use crate::text::first_of_exec;
use crate::text::first_of_from;
use crate::text::lemma_after_ascii_is_boundary;
use crate::text::lemma_ascii_is_boundary;
use crate::text::lemma_first_of_from;
use crate::text::lemma_trim_end_bounds;
use crate::text::lemma_trim_end_boundary;
use crate::text::lemma_trim_range_bounds;
use crate::text::lemma_trim_range_boundary;
use crate::text::lemma_trim_start_bounds;
use crate::text::range_eq_ignore_ascii_case;
use crate::text::starts_with_at;
use crate::text::starts_with_at_exec;
use crate::text::substr;
use crate::text::trim_end_exec;
use crate::text::trim_end_pos;
use crate::text::trim_exec;
use crate::text::trim_range;
use crate::text::trim_start_exec;
use crate::text::trim_start_pos;
use crate::text::ws_len_at;
use crate::text::ws_len_at_exec;

verus! {

broadcast use vstd::seq::group_seq_axioms;

/// Wikilink color — blue-ish, distinct from the markdown link color.
pub open spec fn color_wikilink() -> Color {
    Color { r: 86, g: 156, b: 214, a: 255 }
}

/// Unresolved-link color — a muted red, so a dangling target reads as broken
/// rather than as a normal link.
pub open spec fn color_wikilink_unresolved() -> Color {
    Color { r: 224, g: 108, b: 117, a: 255 }
}

/// Tag bit OR-ed into a wikilink widget's `widget_id`. The low bits carry the
/// link's start byte so the host can re-parse the link there on click; the
/// tag tells wikilink clicks apart from other inline-widget clicks.
pub const WIKILINK_WIDGET_TAG: u64 = 0x4000_0000_0000_0000;

/// `^`
pub const CARET: u8 = 94;

/// `[`
pub const LBRACKET: u8 = 91;

/// `]`
pub const RBRACKET: u8 = 93;

/// `(`
pub const LPAREN: u8 = 40;

/// `)`
pub const RPAREN: u8 = 41;

/// `#`
pub const HASH: u8 = 35;

/// `` ` ``
pub const TICK: u8 = 96;

/// True for a byte allowed in a block id (`[A-Za-z0-9-]`).
pub open spec fn spec_is_block_id_byte(x: u8) -> bool {
    (48 <= x && x <= 57) || (65 <= x && x <= 90) || (97 <= x && x <= 122) || x == 45
}

/// True for a byte allowed in a block id (`[A-Za-z0-9-]`).
pub fn is_block_id_byte(x: u8) -> (r: bool)
    ensures
        r == spec_is_block_id_byte(x),
{
    (48 <= x && x <= 57) || (65 <= x && x <= 90) || (97 <= x && x <= 122) || x == 45
}

/// The last position `q` in `lo..p` at which a whitespace character (ending
/// by `hi`) starts, or -1 (`str::rfind(char::is_whitespace)`).
pub open spec fn last_ws_before(s: Seq<u8>, lo: int, hi: int, p: int) -> int
    decreases p - lo,
{
    if p <= lo {
        -1
    } else if ws_len_at(s, p - 1, hi) > 0 {
        p - 1
    } else {
        last_ws_before(s, lo, hi, p - 1)
    }
}

/// The byte range of a line's trailing ` ^blockid` marker: from the last
/// whitespace character of the right-trimmed line to the end of the line.
/// The token after that whitespace must be `^` and a non-empty id over
/// `[A-Za-z0-9-]`, and the text before it must not be blank.
pub open spec fn block_marker_spec(s: Seq<u8>) -> Option<(int, int)> {
    let n = s.len() as int;
    let te = trim_end_pos(s, 0, n);
    let p = last_ws_before(s, 0, te, te);
    if p < 0 {
        None
    } else {
        let head = trim_range(s, 0, p);
        let q = trim_start_pos(s, p, te);
        if head.0 == head.1 {
            None
        } else if !(q < te && s[q] == CARET) || q + 1 >= te {
            None
        } else if exists|x: int| q + 1 <= x < te && !spec_is_block_id_byte(#[trigger] s[x]) {
            None
        } else {
            Some((p, n))
        }
    }
}

proof fn lemma_last_ws_before(s: Seq<u8>, lo: int, hi: int, p: int)
    requires
        lo <= p,
    ensures
        last_ws_before(s, lo, hi, p) == -1 || (lo <= last_ws_before(s, lo, hi, p) < p && ws_len_at(
            s,
            last_ws_before(s, lo, hi, p),
            hi,
        ) > 0),
        forall|x: int|
            lo <= x < p && x > last_ws_before(s, lo, hi, p) ==> #[trigger] ws_len_at(s, x, hi) == 0,
    decreases p - lo,
{
    if p > lo && ws_len_at(s, p - 1, hi) == 0 {
        lemma_last_ws_before(s, lo, hi, p - 1);
    }
}

/// Whether every byte of `s[lo..hi]` is a block-id byte.
fn all_block_id_bytes(s: &[u8], lo: usize, hi: usize) -> (r: bool)
    requires
        hi <= s@.len(),
    ensures
        r == forall|y: int| lo <= y < hi ==> spec_is_block_id_byte(#[trigger] s@[y]),
{
    let mut x = lo;
    while x < hi
        invariant
            lo <= x,
            hi <= s@.len(),
            forall|y: int| lo <= y < x ==> spec_is_block_id_byte(#[trigger] s@[y]),
        decreases hi - x,
    {
        if !is_block_id_byte(s[x]) {
            assert(!spec_is_block_id_byte(s@[x as int]));
            return false;
        }
        x = x + 1;
    }
    true
}

/// Exec form of [`last_ws_before`] over `s[..te]`.
fn last_ws_exec(s: &[u8], te: usize) -> (r: Option<usize>)
    requires
        te <= s@.len(),
    ensures
        match r {
            Some(p) => p as int == last_ws_before(s@, 0, te as int, te as int) && p < te,
            None => last_ws_before(s@, 0, te as int, te as int) == -1,
        },
{
    let mut p = te;
    while p > 0
        invariant
            p <= te <= s@.len(),
            last_ws_before(s@, 0, te as int, p as int) == last_ws_before(s@, 0, te as int, te as int),
        decreases p,
    {
        if ws_len_at_exec(s, p - 1, te) > 0 {
            return Some(p - 1);
        }
        p = p - 1;
    }
    None
}

/// The byte range of `line`'s trailing ` ^blockid` marker — the whitespace
/// separator and the `^id` token together — when `line` (one logical line,
/// no trailing newline) carries one, else `None`. A bare `^id` line, an `^id`
/// glued to a word (`word^id`) or an incidental `^` mid-line (`2^10`,
/// `a ^ b`) is no marker. The range starts at the whitespace before the `^`
/// and ends at the line's end, so concealing it also swallows the space.
pub fn trailing_block_marker(line: &str) -> (r: Option<std::ops::Range<usize>>)
    ensures
        match block_marker_spec(line.spec_bytes()) {
            Some(m) => r is Some && r->0.start == m.0 && r->0.end == m.1,
            None => r is None,
        },
{
    let s = line.as_bytes();
    let n = s.len();
    proof {
        lemma_trim_end_bounds(s@, 0, n as int);
    }
    let te = trim_end_exec(s, 0, n);
    proof {
        lemma_last_ws_before(s@, 0, te as int, te as int);
    }
    let p = match last_ws_exec(s, te) {
        None => {
            return None;
        },
        Some(p) => p,
    };
    proof {
        lemma_trim_range_bounds(s@, 0, p as int);
        lemma_trim_start_bounds(s@, p as int, te as int);
    }
    let (hs, he) = trim_exec(s, 0, p);
    if hs == he {
        return None;
    }
    let q = trim_start_exec(s, p, te);
    if !(q < te && s[q] == CARET) || q + 1 >= te {
        return None;
    }
    if !all_block_id_bytes(s, q + 1, te) {
        return None;
    }
    assert(!exists|y: int| q + 1 <= y < te && !spec_is_block_id_byte(#[trigger] s@[y]));
    Some(p..n)
}

/// `b[lo..hi]` starts with `pat` up to ASCII case.
pub open spec fn starts_with_ci(b: Seq<u8>, lo: int, hi: int, pat: Seq<u8>) -> bool {
    lo + pat.len() <= hi && eq_ignore_ascii_case(b.subrange(lo, lo + pat.len()), pat)
}

/// The bytes of `http://`.
pub open spec fn pat_http() -> Seq<u8> {
    seq![104u8, 116u8, 116u8, 112u8, 58u8, 47u8, 47u8]
}

/// The bytes of `https://`.
pub open spec fn pat_https() -> Seq<u8> {
    seq![104u8, 116u8, 116u8, 112u8, 115u8, 58u8, 47u8, 47u8]
}

/// The bytes of `mailto:`.
pub open spec fn pat_mailto() -> Seq<u8> {
    seq![109u8, 97u8, 105u8, 108u8, 116u8, 111u8, 58u8]
}

/// The bytes of `zim://`.
pub open spec fn pat_zim() -> Seq<u8> {
    seq![122u8, 105u8, 109u8, 58u8, 47u8, 47u8]
}

/// The bytes of `code:`.
pub open spec fn pat_code() -> Seq<u8> {
    seq![99u8, 111u8, 100u8, 101u8, 58u8]
}

/// A link destination `b[lo..hi]` leaves the vault: once trimmed it starts
/// with `http://`, `https://`, `mailto:` or `zim://`, in any ASCII case.
pub open spec fn is_external_range(b: Seq<u8>, lo: int, hi: int) -> bool {
    let t = trim_range(b, lo, hi);
    ||| starts_with_ci(b, t.0, t.1, pat_http())
    ||| starts_with_ci(b, t.0, t.1, pat_https())
    ||| starts_with_ci(b, t.0, t.1, pat_mailto())
    ||| starts_with_ci(b, t.0, t.1, pat_zim())
}

fn http_pat() -> (v: Vec<u8>)
    ensures
        v@ == pat_http(),
{
    let v: Vec<u8> = vec![104u8, 116u8, 116u8, 112u8, 58u8, 47u8, 47u8];
    assert(v@ == pat_http());
    v
}

fn https_pat() -> (v: Vec<u8>)
    ensures
        v@ == pat_https(),
{
    let v: Vec<u8> = vec![104u8, 116u8, 116u8, 112u8, 115u8, 58u8, 47u8, 47u8];
    assert(v@ == pat_https());
    v
}

fn mailto_pat() -> (v: Vec<u8>)
    ensures
        v@ == pat_mailto(),
{
    let v: Vec<u8> = vec![109u8, 97u8, 105u8, 108u8, 116u8, 111u8, 58u8];
    assert(v@ == pat_mailto());
    v
}

fn zim_pat() -> (v: Vec<u8>)
    ensures
        v@ == pat_zim(),
{
    let v: Vec<u8> = vec![122u8, 105u8, 109u8, 58u8, 47u8, 47u8];
    assert(v@ == pat_zim());
    v
}

fn code_pat() -> (v: Vec<u8>)
    ensures
        v@ == pat_code(),
{
    let v: Vec<u8> = vec![99u8, 111u8, 100u8, 101u8, 58u8];
    assert(v@ == pat_code());
    v
}

/// Whether `b[lo..hi]` starts with `pat` up to ASCII case.
fn starts_with_ci_exec(b: &[u8], lo: usize, hi: usize, pat: &[u8]) -> (r: bool)
    requires
        lo <= hi <= b@.len(),
    ensures
        r == starts_with_ci(b@, lo as int, hi as int, pat@),
{
    if hi - lo < pat.len() {
        return false;
    }
    range_eq_ignore_ascii_case(b, lo, lo + pat.len(), pat)
}

/// Exec form of [`is_external_range`].
fn is_external_range_exec(b: &[u8], lo: usize, hi: usize) -> (r: bool)
    requires
        lo <= hi <= b@.len(),
    ensures
        r == is_external_range(b@, lo as int, hi as int),
{
    proof {
        lemma_trim_range_bounds(b@, lo as int, hi as int);
    }
    let (ts, te) = trim_exec(b, lo, hi);
    let http = http_pat();
    let https = https_pat();
    let mailto = mailto_pat();
    let zim = zim_pat();
    starts_with_ci_exec(b, ts, te, http.as_slice()) || starts_with_ci_exec(b, ts, te, https.as_slice())
        || starts_with_ci_exec(b, ts, te, mailto.as_slice()) || starts_with_ci_exec(
        b,
        ts,
        te,
        zim.as_slice(),
    )
}

/// True when a markdown-link destination leaves the vault — `http(s)://`,
/// `mailto:`, or a `zim://` archive reference (any ASCII case, surrounding
/// whitespace ignored). Such links keep the standard markdown decoration and
/// are not turned into note pills.
pub fn is_external_link_dest(dest: &str) -> (r: bool)
    ensures
        r == is_external_range(dest.spec_bytes(), 0, dest.spec_bytes().len() as int),
{
    let b = dest.as_bytes();
    is_external_range_exec(b, 0, b.len())
}

/// Faint pill background tinted from the link color (low alpha).
pub open spec fn spec_pill_bg(c: Color) -> Color {
    Color { r: c.r, g: c.g, b: c.b, a: 36 }
}

/// Faint pill background tinted from the link color (low alpha).
pub fn pill_bg(c: Color) -> (r: Color)
    ensures
        r == spec_pill_bg(c),
{
    Color::rgba(c.r, c.g, c.b, 36)
}

/// A parsed `[label](dest)` markdown link on a single line: the label between
/// `[` and `]`, the destination between `(` and `)` verbatim, and the byte
/// offset just past the closing `)`.
pub struct MdLink {
    pub label: String,
    pub dest: String,
    pub full_end: usize,
}

/// The markdown link `[label](dest)` opening at `start`, as the positions of
/// its `]` and its `)`: the label runs to the first `]` (no newline before
/// it) and is not empty, a `(` follows at once, the destination runs to the
/// first `)` (no newline before it) and is not blank.
pub open spec fn md_link_spec(b: Seq<u8>, start: int) -> Option<(int, int)> {
    if start < 0 || start >= b.len() || b[start] != LBRACKET {
        None
    } else {
        let k = first_of_from(b, start + 1, RBRACKET, NL);
        if k >= b.len() || b[k] != RBRACKET {
            None
        } else if k == start + 1 {
            None
        } else if k + 1 >= b.len() || b[k + 1] != LPAREN {
            None
        } else {
            let m = first_of_from(b, k + 2, RPAREN, NL);
            if m >= b.len() || b[m] != RPAREN {
                None
            } else if trim_range(b, k + 2, m).0 == trim_range(b, k + 2, m).1 {
                None
            } else {
                Some((k, m))
            }
        }
    }
}

/// Exec form of [`md_link_spec`] on bytes.
fn md_link_at(b: &[u8], start: usize) -> (r: Option<(usize, usize)>)
    ensures
        r is None <==> md_link_spec(b@, start as int) is None,
        r matches Some(km) ==> md_link_spec(b@, start as int) == Some((km.0 as int, km.1 as int))
            && start < km.0 && km.0 + 2 <= km.1 < b@.len() && b@[km.0 as int] == RBRACKET && b@[km.0
            + 1] == LPAREN && b@[km.1 as int] == RPAREN,
{
    let n = b.len();
    if start >= n || b[start] != LBRACKET {
        return None;
    }
    proof {
        lemma_first_of_from(b@, start + 1, RBRACKET, NL);
    }
    let k = first_of_exec(b, start + 1, RBRACKET, NL);
    if k >= n || b[k] != RBRACKET {
        return None;
    }
    if k == start + 1 {
        return None;
    }
    if k + 1 >= n || b[k + 1] != LPAREN {
        return None;
    }
    proof {
        lemma_first_of_from(b@, k + 2, RPAREN, NL);
    }
    let m = first_of_exec(b, k + 2, RPAREN, NL);
    if m >= n || b[m] != RPAREN {
        return None;
    }
    proof {
        lemma_trim_range_bounds(b@, k + 2, m as int);
    }
    let (ds, de) = trim_exec(b, k + 2, m);
    if ds == de {
        return None;
    }
    Some((k, m))
}

/// Parse a `[label](dest)` markdown link whose opening `[` is at byte
/// `start`: `None` when the bytes there are not a well-formed inline link on
/// one line (no nested `]`/`)`, no newline inside, a label and a non-blank
/// destination both present).
pub fn parse_md_link(text: &str, start: usize) -> (r: Option<MdLink>)
    requires
        is_char_boundary(text.spec_bytes(), start as int),
    ensures
        match md_link_spec(text.spec_bytes(), start as int) {
            Some(km) => r is Some && encode_utf8(r->0.label@) == text.spec_bytes().subrange(
                start + 1,
                km.0,
            ) && encode_utf8(r->0.dest@) == text.spec_bytes().subrange(km.0 + 2, km.1)
                && r->0.full_end == km.1 + 1,
            None => r is None,
        },
{
    let b = text.as_bytes();
    let n = b.len();
    proof {
        encode_utf8_valid_utf8(text@);
    }
    match md_link_at(b, start) {
        None => None,
        Some((k, m)) => {
            proof {
                lemma_after_ascii_is_boundary(b@, start as int);
                lemma_ascii_is_boundary(b@, k as int);
                lemma_after_ascii_is_boundary(b@, k + 1);
                lemma_ascii_is_boundary(b@, m as int);
            }
            let label = substr(text, start + 1, k);
            let dest = substr(text, k + 2, m);
            let label_s = label.to_owned();
            let dest_s = dest.to_owned();
            assert(m < n);
            Some(MdLink { label: label_s, dest: dest_s, full_end: m + 1 })
        },
    }
}

/// The closing `]]` of a `code:` wikilink body scanned from `j` with bracket
/// depth `depth`, inside a backtick span or not: nested `[`…`]` groups and
/// backtick spans are skipped, a newline or a stray `]` at depth zero that is
/// not the closer rejects the body.
pub open spec fn code_close_from(b: Seq<u8>, j: int, depth: int, tick: bool) -> Option<int>
    decreases b.len() - j,
{
    if j < 0 || j >= b.len() {
        None
    } else if b[j] == NL {
        None
    } else if b[j] == TICK {
        code_close_from(b, j + 1, depth, !tick)
    } else if b[j] == LBRACKET && !tick {
        code_close_from(b, j + 1, depth + 1, tick)
    } else if b[j] == RBRACKET && !tick {
        if depth > 0 {
            code_close_from(b, j + 1, depth - 1, tick)
        } else if j + 1 < b.len() && b[j + 1] == RBRACKET {
            Some(j)
        } else {
            None
        }
    } else {
        code_close_from(b, j + 1, depth, tick)
    }
}

proof fn lemma_code_close_from(b: Seq<u8>, j: int, depth: int, tick: bool)
    requires
        0 <= j,
    ensures
        code_close_from(b, j, depth, tick) matches Some(c) ==> j <= c && c + 1 < b.len() && b[c]
            == RBRACKET && b[c + 1] == RBRACKET && !contains_byte(b, j, c, NL),
    decreases b.len() - j,
{
    if j < b.len() && b[j] != NL {
        if b[j] == TICK {
            lemma_code_close_from(b, j + 1, depth, !tick);
        } else if b[j] == LBRACKET && !tick {
            lemma_code_close_from(b, j + 1, depth + 1, tick);
        } else if b[j] == RBRACKET && !tick {
            if depth > 0 {
                lemma_code_close_from(b, j + 1, depth - 1, tick);
            }
        } else {
            lemma_code_close_from(b, j + 1, depth, tick);
        }
    }
}

/// Byte offset of the closing `]]` of a `code:` wikilink body starting at
/// `from` (the byte after `[[`), or `None` when the body never closes on its
/// line. A code body may carry nested `[`…`]` groups and backtick spans
/// (`impl#[`Builder<'a>`]method`), so the matcher tracks bracket depth, treats
/// backtick spans as opaque, and closes on the first `]]` at depth zero
/// outside backticks; a stray `]` at depth zero that is not the closer is
/// malformed.
pub fn code_body_close(text: &str, from: usize) -> (r: Option<usize>)
    ensures
        r is None <==> code_close_from(text.spec_bytes(), from as int, 0, false) is None,
        r matches Some(c) ==> code_close_from(text.spec_bytes(), from as int, 0, false) == Some(
            c as int,
        ),
{
    let b = text.as_bytes();
    let n = b.len();
    let mut depth: usize = 0;
    let mut in_backtick = false;
    let mut j = from;
    while j < n
        invariant
            b@ == text.spec_bytes(),
            n == b@.len(),
            from <= j,
            depth <= j - from,
            code_close_from(b@, j as int, depth as int, in_backtick) == code_close_from(
                b@,
                from as int,
                0,
                false,
            ),
        decreases n - j,
    {
        let x = b[j];
        if x == NL {
            return None;
        } else if x == TICK {
            in_backtick = !in_backtick;
        } else if x == LBRACKET && !in_backtick {
            depth = depth + 1;
        } else if x == RBRACKET && !in_backtick {
            if depth > 0 {
                depth = depth - 1;
            } else if j + 1 < n && b[j + 1] == RBRACKET {
                return Some(j);
            } else {
                return None;
            }
        }
        j = j + 1;
    }
    None
}

/// A link the scan found.
#[derive(Clone, Copy, Debug, PartialEq, Eq, Structural)]
pub enum LinkSite {
    /// A vault markdown link `[label](dest)` opening at `start`, whose `]` is
    /// at `label_end` and whose `)` is at `dest_end`.
    Markdown { start: usize, label_end: usize, dest_end: usize, on_cursor: bool },
    /// A wikilink `[[body]]` opening at `start`, whose closing `]]` starts at
    /// `close`.
    Wiki { start: usize, close: usize, on_cursor: bool },
}

impl LinkSite {
    /// The cursor line touches the link, so it stays raw.
    pub open spec fn spec_on_cursor(self) -> bool {
        match self {
            LinkSite::Markdown { on_cursor, .. } => on_cursor,
            LinkSite::Wiki { on_cursor, .. } => on_cursor,
        }
    }
}

/// The cursor line `cl` lies within the lines of the span `start..full_end`.
pub open spec fn on_cursor_span(b: Seq<u8>, start: int, full_end: int, cl: int) -> bool {
    let last = if full_end - 1 > start {
        full_end - 1
    } else {
        start
    };
    line_of(b, start) <= cl && cl <= line_of(b, last)
}

/// The first `]]` at or after `j`, when no newline comes before it.
pub open spec fn flat_close_from(b: Seq<u8>, j: int) -> Option<int>
    decreases b.len() - j,
{
    if j < 0 || j + 1 >= b.len() {
        None
    } else if b[j] == NL {
        None
    } else if b[j] == RBRACKET && b[j + 1] == RBRACKET {
        Some(j)
    } else {
        flat_close_from(b, j + 1)
    }
}

/// The close of a wikilink opening at `i`: `None` when its body never
/// closes, else the start of its `]]` and whether the body is well formed.
/// A `code:` body closes by [`code_close_from`]; any other body closes at
/// the first `]]` on its line and is well formed when it is neither empty nor
/// holds a `]`.
pub open spec fn wiki_close_spec(b: Seq<u8>, i: int) -> Option<(int, bool)> {
    let s = i + 2;
    if starts_with_at(b, s, b.len() as int, pat_code()) {
        match code_close_from(b, s, 0, false) {
            Some(c) => Some((c, true)),
            None => None,
        }
    } else {
        match flat_close_from(b, s) {
            Some(c) => Some((c, !(c == s || contains_byte(b, s, c, RBRACKET)))),
            None => None,
        }
    }
}

/// A vault markdown link opens at `i`: a `[` that is neither followed nor
/// preceded by another `[`, starting a well-formed `[label](dest)` whose
/// destination is not external.
pub open spec fn md_site_at(b: Seq<u8>, i: int) -> bool {
    &&& b[i] == LBRACKET
    &&& b[i + 1] != LBRACKET
    &&& (i == 0 || b[i - 1] != LBRACKET)
    &&& match md_link_spec(b, i) {
        Some(km) => !is_external_range(b, km.0 + 2, km.1),
        None => false,
    }
}

/// The links whose opening lies in `i..end`, in document order, with the
/// cursor on line `cl`. The scan resumes after each link; a rejected
/// wikilink body is skipped whole.
pub open spec fn link_sites_from(b: Seq<u8>, i: int, end: int, cl: int) -> Seq<LinkSite>
    decreases gap(i, end),
{
    if i < 0 || i + 1 >= end || end > b.len() {
        seq![]
    } else if md_site_at(b, i) {
        let km = md_link_spec(b, i)->0;
        let fe = km.1 + 1;
        if fe <= i {
            seq![]
        } else {
            seq![
                LinkSite::Markdown {
                    start: i as usize,
                    label_end: km.0 as usize,
                    dest_end: km.1 as usize,
                    on_cursor: on_cursor_span(b, i, fe, cl),
                },
            ] + link_sites_from(b, fe, end, cl)
        }
    } else if b[i] == LBRACKET && b[i + 1] == LBRACKET {
        match wiki_close_spec(b, i) {
            None => link_sites_from(b, i + 1, end, cl),
            Some(co) => {
                let c = co.0;
                if c + 2 <= i {
                    seq![]
                } else if co.1 {
                    seq![
                        LinkSite::Wiki {
                            start: i as usize,
                            close: c as usize,
                            on_cursor: on_cursor_span(b, i, c + 2, cl),
                        },
                    ] + link_sites_from(b, c + 2, end, cl)
                } else {
                    link_sites_from(b, c + 2, end, cl)
                }
            },
        }
    } else {
        link_sites_from(b, i + 1, end, cl)
    }
}

/// Distance from `i` up to `end`, or 0 past it.
pub open spec fn gap(i: int, end: int) -> int {
    if i < end {
        end - i
    } else {
        0
    }
}

/// The line the main caret is on.
pub open spec fn cursor_line(state: &EditorState) -> int {
    line_of(state.doc.bytes(), state.spec_cursor() as int)
}

/// Byte range the link scan covers: the viewport clamped to the text, or all
/// of it.
pub open spec fn link_bounds(len: int, viewport: Option<&std::ops::Range<usize>>) -> (int, int) {
    match viewport {
        Some(vp) => (
            if vp.start < len {
                vp.start as int
            } else {
                len
            },
            if vp.end < len {
                vp.end as int
            } else {
                len
            },
        ),
        None => (0, len),
    }
}

/// Every link of the document the scan finds in the viewport.
pub open spec fn link_sites_spec(state: &EditorState, viewport: Option<&std::ops::Range<usize>>) -> Seq<
    LinkSite,
> {
    let b = state.doc.bytes();
    let r = link_bounds(b.len() as int, viewport);
    link_sites_from(b, r.0, r.1, cursor_line(state))
}

/// Well-formed sites lie in the text with their delimiters where they say.
pub open spec fn site_wf(b: Seq<u8>, s: LinkSite) -> bool {
    match s {
        LinkSite::Markdown { start, label_end, dest_end, .. } => md_link_spec(b, start as int) == Some(
            (label_end as int, dest_end as int),
        ) && start < label_end && label_end + 2 <= dest_end < b.len(),
        LinkSite::Wiki { start, close, .. } => start + 2 <= close && close + 1 < b.len() && b[start as int]
            == LBRACKET && b[start + 1] == LBRACKET && b[close as int] == RBRACKET,
    }
}

proof fn lemma_flat_close_from(b: Seq<u8>, j: int)
    requires
        0 <= j,
    ensures
        flat_close_from(b, j) matches Some(c) ==> j <= c && c + 1 < b.len() && b[c] == RBRACKET && b[c
            + 1] == RBRACKET,
    decreases b.len() - j,
{
    if j + 1 < b.len() && b[j] != NL && !(b[j] == RBRACKET && b[j + 1] == RBRACKET) {
        lemma_flat_close_from(b, j + 1);
    }
}

/// Exec form of [`flat_close_from`].
fn flat_close(b: &[u8], from: usize) -> (r: Option<usize>)
    ensures
        r is None <==> flat_close_from(b@, from as int) is None,
        r matches Some(c) ==> flat_close_from(b@, from as int) == Some(c as int),
{
    let n = b.len();
    let mut j = from;
    while j < n && n - j >= 2
        invariant
            n == b@.len(),
            from <= j,
            flat_close_from(b@, j as int) == flat_close_from(b@, from as int),
        decreases n - j,
    {
        if b[j] == NL {
            return None;
        }
        if b[j] == RBRACKET && b[j + 1] == RBRACKET {
            return Some(j);
        }
        j = j + 1;
    }
    None
}

/// Exec form of [`wiki_close_spec`] for the `[[` at `i`.
fn wiki_close(text: &str, b: &[u8], i: usize) -> (r: Option<(usize, bool)>)
    requires
        b@ == text.spec_bytes(),
        i + 1 < b@.len(),
        b@[i as int] == LBRACKET,
        b@[i + 1] == LBRACKET,
    ensures
        r is None <==> wiki_close_spec(b@, i as int) is None,
        r matches Some(co) ==> wiki_close_spec(b@, i as int) == Some((co.0 as int, co.1)) && i + 2 <= co.0
            && co.0 + 1 < b@.len() && b@[co.0 as int] == RBRACKET,
{
    let n = b.len();
    let s = i + 2;
    let code = code_pat();
    if starts_with_at_exec(b, s, b.len(), code.as_slice()) {
        proof {
            lemma_code_close_from(b@, s as int, 0, false);
        }
        match code_body_close(text, s) {
            Some(c) => Some((c, true)),
            None => None,
        }
    } else {
        proof {
            lemma_flat_close_from(b@, s as int);
        }
        match flat_close(b, s) {
            Some(c) => {
                let bad = c == s || contains_byte_exec(b, s, c, RBRACKET);
                Some((c, !bad))
            },
            None => None,
        }
    }
}

/// Exec form of [`on_cursor_span`].
fn on_cursor_exec(b: &[u8], table: &Vec<usize>, start: usize, full_end: usize, cl: usize) -> (r: bool)
    requires
        is_line_table(b@, table@),
        start < full_end,
    ensures
        r == on_cursor_span(b@, start as int, full_end as int, cl as int),
{
    let last = if full_end - 1 > start {
        full_end - 1
    } else {
        start
    };
    let l0 = line_of_exec(b, table, start);
    let l1 = line_of_exec(b, table, last);
    l0 <= cl && cl <= l1
}

/// Scan `start..end` for vault markdown links and wikilinks.
fn scan_link_sites(text: &str, b: &[u8], table: &Vec<usize>, start: usize, end: usize, cl: usize) -> (sites:
    Vec<LinkSite>)
    requires
        b@ == text.spec_bytes(),
        is_line_table(b@, table@),
        start <= b@.len(),
        end <= b@.len(),
    ensures
        sites@ == link_sites_from(b@, start as int, end as int, cl as int),
        forall|k: int| 0 <= k < sites@.len() ==> site_wf(b@, #[trigger] sites@[k]),
{
    let n = b.len();
    let mut sites: Vec<LinkSite> = Vec::new();
    let mut i = start;
    while i < end && end - i >= 2
        invariant
            b@ == text.spec_bytes(),
            is_line_table(b@, table@),
            n == b@.len(),
            start <= i,
            end <= n,
            sites@ + link_sites_from(b@, i as int, end as int, cl as int) == link_sites_from(
                b@,
                start as int,
                end as int,
                cl as int,
            ),
            forall|k: int| 0 <= k < sites@.len() ==> site_wf(b@, #[trigger] sites@[k]),
        decreases n - i,
    {
        let ghost before = sites@;
        let mut md: Option<(usize, usize)> = None;
        if b[i] == LBRACKET && b[i + 1] != LBRACKET && (i == 0 || b[i - 1] != LBRACKET) {
            match md_link_at(b, i) {
                Some((k, m)) => {
                    if !is_external_range_exec(b, k + 2, m) {
                        md = Some((k, m));
                    }
                },
                None => {},
            }
        }
        assert(md is Some <==> md_site_at(b@, i as int));
        match md {
            Some((k, m)) => {
                let on = on_cursor_exec(b, table, i, m + 1, cl);
                let site = LinkSite::Markdown { start: i, label_end: k, dest_end: m, on_cursor: on };
                sites.push(site);
                proof {
                    assert(link_sites_from(b@, i as int, end as int, cl as int) == seq![site]
                        + link_sites_from(b@, m + 1, end as int, cl as int));
                    assert(sites@ == before.push(site));
                }
                i = m + 1;
            },
            None => {
                if b[i] == LBRACKET && b[i + 1] == LBRACKET {
                    match wiki_close(text, b, i) {
                        None => {
                            i = i + 1;
                        },
                        Some((c, ok)) => {
                            if ok {
                                let on = on_cursor_exec(b, table, i, c + 2, cl);
                                let site = LinkSite::Wiki { start: i, close: c, on_cursor: on };
                                sites.push(site);
                                proof {
                                    assert(link_sites_from(b@, i as int, end as int, cl as int) == seq![site]
                                        + link_sites_from(b@, c + 2, end as int, cl as int));
                                    assert(sites@ == before.push(site));
                                }
                            }
                            i = c + 2;
                        },
                    }
                } else {
                    i = i + 1;
                }
            },
        }
    }
    proof {
        assert(link_sites_from(b@, i as int, end as int, cl as int) == Seq::<LinkSite>::empty());
        assert(sites@ == link_sites_from(b@, start as int, end as int, cl as int));
    }
    sites
}

/// The byte range of the text a site puts to the title resolver: a
/// wikilink's trimmed body, or the trimmed page part (before any `#`) of a
/// markdown link's destination.
pub open spec fn site_query(b: Seq<u8>, s: LinkSite) -> (int, int) {
    match s {
        LinkSite::Markdown { label_end, dest_end, .. } => {
            let lo = label_end + 2;
            let h0 = first_of_from(b, lo, HASH, HASH);
            let h = if h0 < dest_end {
                h0
            } else {
                dest_end as int
            };
            trim_range(b, lo, h)
        },
        LinkSite::Wiki { start, close, .. } => trim_range(b, start + 2, close as int),
    }
}

/// The queries the resolver gets, one per site off the cursor line, in
/// order.
pub open spec fn link_queries(b: Seq<u8>, sites: Seq<LinkSite>) -> Seq<(int, int)>
    decreases sites.len(),
{
    if sites.len() == 0 {
        seq![]
    } else {
        let q = link_queries(b, sites.drop_last());
        if sites.last().spec_on_cursor() {
            q
        } else {
            q.push(site_query(b, sites.last()))
        }
    }
}

/// The decorations of the link provider in spec terms; pill labels and
/// replacement text are held as UTF-8 bytes.
pub enum LinkDeco {
    /// A clickable pill over `start..end`.
    Pill { start: int, end: int, label: Seq<u8>, fg: Color, bg: Option<Color>, id: u64 },
    /// The span replaced by the plain text `display`.
    Plain { start: int, end: int, display: Seq<u8> },
    /// The span hidden.
    Conceal { start: int, end: int },
    /// The span underlined in `color`.
    Underline { start: int, end: int, color: Color },
}

/// The mark on a wikilink body: underlined, in the link color.
pub open spec fn link_mark(color: Color) -> MarkStyle {
    MarkStyle {
        bold: false,
        italic: false,
        strikethrough: false,
        underline: true,
        fg: Some(color),
        bg: None,
        font_scale: None,
        monospace: false,
        atomic: false,
    }
}

/// The decoration entry `e` is `d`.
pub open spec fn deco_is(e: (std::ops::Range<usize>, Decoration), d: LinkDeco) -> bool {
    match d {
        LinkDeco::Pill { start, end, label, fg, bg, id } => e.0.start == start && e.0.end == end
            && match e.1 {
            Decoration::InlineWidget { widget, atomic } => atomic && encode_utf8(widget.text@) == label
                && widget.fg == fg && widget.bg == bg && widget.id == id,
            _ => false,
        },
        LinkDeco::Plain { start, end, display } => e.0.start == start && e.0.end == end && match e.1 {
            Decoration::Replace { display: Some(t) } => encode_utf8(t@) == display,
            _ => false,
        },
        LinkDeco::Conceal { start, end } => e.0.start == start && e.0.end == end && e.1
            == Decoration::Replace { display: None },
        LinkDeco::Underline { start, end, color } => e.0.start == start && e.0.end == end && e.1
            == Decoration::Mark(link_mark(color)),
    }
}

/// `entries` are exactly the decorations `ds`, in order.
pub open spec fn decos_are(entries: Seq<(std::ops::Range<usize>, Decoration)>, ds: Seq<LinkDeco>) -> bool {
    &&& entries.len() == ds.len()
    &&& forall|i: int| 0 <= i < entries.len() ==> deco_is(#[trigger] entries[i], ds[i])
}

/// The click id of a pill for the link opening at `start`.
pub open spec fn pill_id(start: usize) -> u64 {
    WIKILINK_WIDGET_TAG | (start as u64)
}

/// The decorations of one site, given the resolver's answer for it (`None`
/// when there is no resolver). An off-cursor markdown link becomes a pill
/// labelled with its trimmed label (or trimmed destination when the label is
/// blank), unresolved-styled when the resolver does not place it. An
/// off-cursor wikilink becomes a pill labelled with the resolved title (or
/// its target), or with no resolver a plain replacement by its target; its
/// body is underlined in either case.
pub open spec fn site_decos(b: Seq<u8>, s: LinkSite, color: Color, ans: Option<Option<String>>) -> Seq<
    LinkDeco,
> {
    match s {
        LinkSite::Markdown { start, label_end, dest_end, on_cursor } => {
            if on_cursor {
                seq![]
            } else {
                let lr = trim_range(b, start + 1, label_end as int);
                let label = if lr.0 < lr.1 {
                    lr
                } else {
                    trim_range(b, label_end + 2, dest_end as int)
                };
                let resolved = match ans {
                    None => true,
                    Some(a) => a is Some,
                };
                seq![
                    LinkDeco::Pill {
                        start: start as int,
                        end: dest_end + 1,
                        label: b.subrange(label.0, label.1),
                        fg: if resolved {
                            color
                        } else {
                            color_wikilink_unresolved()
                        },
                        bg: if resolved {
                            Some(spec_pill_bg(color))
                        } else {
                            None
                        },
                        id: pill_id(start),
                    },
                ]
            }
        },
        LinkSite::Wiki { start, close, on_cursor } => {
            let t = trim_range(b, start + 2, close as int);
            let target = b.subrange(t.0, t.1);
            let pill = if on_cursor {
                seq![]
            } else {
                match ans {
                    None => seq![LinkDeco::Plain { start: start as int, end: close + 2, display: target }],
                    Some(None) => seq![
                        LinkDeco::Pill {
                            start: start as int,
                            end: close + 2,
                            label: target,
                            fg: color_wikilink_unresolved(),
                            bg: None,
                            id: pill_id(start),
                        },
                    ],
                    Some(Some(title)) => seq![
                        LinkDeco::Pill {
                            start: start as int,
                            end: close + 2,
                            label: if title@.len() > 0 {
                                encode_utf8(title@)
                            } else {
                                target
                            },
                            fg: color,
                            bg: Some(spec_pill_bg(color)),
                            id: pill_id(start),
                        },
                    ],
                }
            };
            pill + seq![LinkDeco::Underline { start: start + 2, end: close as int, color }]
        },
    }
}

/// The decorations of `sites`, in order, with `answers` holding the
/// resolver's answer to each query of [`link_queries`] (`None` when there is
/// no resolver).
pub open spec fn link_decos(
    b: Seq<u8>,
    sites: Seq<LinkSite>,
    color: Color,
    answers: Option<Seq<Option<String>>>,
) -> Seq<LinkDeco>
    decreases sites.len(),
{
    if sites.len() == 0 {
        seq![]
    } else {
        let prev = sites.drop_last();
        let ans = match answers {
            None => None,
            Some(a) => Some(a[link_queries(b, prev).len() as int]),
        };
        link_decos(b, prev, color, answers) + site_decos(b, sites.last(), color, ans)
    }
}

/// The boundaries of every range a well-formed site hands out fall on
/// character boundaries and lie in order.
proof fn lemma_site_ranges(b: Seq<u8>, s: LinkSite)
    requires
        valid_utf8(b),
        site_wf(b, s),
    ensures
        match s {
            LinkSite::Markdown { start, label_end, dest_end, .. } => {
                &&& is_char_boundary(b, start + 1)
                &&& is_char_boundary(b, label_end as int)
                &&& is_char_boundary(b, label_end + 2)
                &&& is_char_boundary(b, dest_end as int)
                &&& b[start as int] == LBRACKET && b[label_end as int] == RBRACKET && b[label_end + 1]
                    == LPAREN && b[dest_end as int] == RPAREN
            },
            LinkSite::Wiki { start, close, .. } => {
                &&& is_char_boundary(b, start + 2)
                &&& is_char_boundary(b, close as int)
            },
        },
{
    match s {
        LinkSite::Markdown { start, label_end, dest_end, .. } => {
            let k = label_end as int;
            let m = dest_end as int;
            lemma_first_of_from(b, start + 1, RBRACKET, NL);
            lemma_first_of_from(b, k + 2, RPAREN, NL);
            lemma_after_ascii_is_boundary(b, start as int);
            lemma_ascii_is_boundary(b, k);
            lemma_after_ascii_is_boundary(b, k + 1);
            lemma_ascii_is_boundary(b, m);
        },
        LinkSite::Wiki { start, close, .. } => {
            lemma_after_ascii_is_boundary(b, start + 1);
            lemma_ascii_is_boundary(b, close as int);
        },
    }
}

/// The query range of a well-formed site lies in order on character
/// boundaries.
proof fn lemma_site_query(b: Seq<u8>, s: LinkSite)
    requires
        valid_utf8(b),
        site_wf(b, s),
    ensures
        0 <= site_query(b, s).0 <= site_query(b, s).1 <= b.len(),
        is_char_boundary(b, site_query(b, s).0),
        is_char_boundary(b, site_query(b, s).1),
{
    lemma_site_ranges(b, s);
    match s {
        LinkSite::Markdown { label_end, dest_end, .. } => {
            let lo = label_end + 2;
            lemma_first_of_from(b, lo, HASH, HASH);
            let h0 = first_of_from(b, lo, HASH, HASH);
            let h = if h0 < dest_end {
                h0
            } else {
                dest_end as int
            };
            if h0 < dest_end {
                lemma_ascii_is_boundary(b, h0);
            }
            lemma_trim_range_bounds(b, lo, h);
            lemma_trim_range_boundary(b, lo, h);
        },
        LinkSite::Wiki { start, close, .. } => {
            lemma_trim_range_bounds(b, start + 2, close as int);
            lemma_trim_range_boundary(b, start + 2, close as int);
        },
    }
}

/// Exec form of [`site_query`]: the query text of a site.
fn site_query_exec(text: &str, b: &[u8], s: LinkSite) -> (q: String)
    requires
        b@ == text.spec_bytes(),
        site_wf(b@, s),
    ensures
        encode_utf8(q@) == b@.subrange(site_query(b@, s).0, site_query(b@, s).1),
{
    proof {
        encode_utf8_valid_utf8(text@);
        lemma_site_query(b@, s);
    }
    match s {
        LinkSite::Markdown { label_end, dest_end, .. } => {
            let lo = label_end + 2;
            let h0 = first_of_exec(b, lo, HASH, HASH);
            let h = if h0 < dest_end {
                h0
            } else {
                dest_end
            };
            let (qs, qe) = trim_exec(b, lo, h);
            substr(text, qs, qe).to_owned()
        },
        LinkSite::Wiki { start, close, .. } => {
            let (qs, qe) = trim_exec(b, start + 2, close);
            substr(text, qs, qe).to_owned()
        },
    }
}

/// The query texts of `sites`, one per site off the cursor line.
fn queries_of(text: &str, b: &[u8], sites: &Vec<LinkSite>) -> (qs: Vec<String>)
    requires
        b@ == text.spec_bytes(),
        forall|k: int| 0 <= k < sites@.len() ==> site_wf(b@, #[trigger] sites@[k]),
    ensures
        qs@.len() == link_queries(b@, sites@).len(),
        forall|k: int|
            0 <= k < qs@.len() ==> encode_utf8((#[trigger] qs@[k])@) == b@.subrange(
                link_queries(b@, sites@)[k].0,
                link_queries(b@, sites@)[k].1,
            ),
{
    let mut qs: Vec<String> = Vec::new();
    let mut k: usize = 0;
    while k < sites.len()
        invariant
            b@ == text.spec_bytes(),
            forall|m: int| 0 <= m < sites@.len() ==> site_wf(b@, #[trigger] sites@[m]),
            k <= sites@.len(),
            qs@.len() == link_queries(b@, sites@.take(k as int)).len(),
            forall|m: int|
                0 <= m < qs@.len() ==> encode_utf8((#[trigger] qs@[m])@) == b@.subrange(
                    link_queries(b@, sites@.take(k as int))[m].0,
                    link_queries(b@, sites@.take(k as int))[m].1,
                ),
        decreases sites@.len() - k,
    {
        let s = sites[k];
        proof {
            let t1 = sites@.take(k + 1);
            assert(t1.drop_last() == sites@.take(k as int));
            assert(t1.last() == s);
        }
        let on = match s {
            LinkSite::Markdown { on_cursor, .. } => on_cursor,
            LinkSite::Wiki { on_cursor, .. } => on_cursor,
        };
        if !on {
            let q = site_query_exec(text, b, s);
            qs.push(q);
        }
        k = k + 1;
    }
    proof {
        assert(sites@.take(sites@.len() as int) == sites@);
    }
    qs
}

/// The texts the title resolver is asked about, in order: one per link off
/// the cursor line (a wikilink's trimmed body, or the trimmed page part of a
/// vault markdown link's destination).
pub fn wikilink_queries(state: &EditorState, viewport: Option<&std::ops::Range<usize>>) -> (qs: Vec<
    String,
>)
    ensures
        qs@.len() == link_queries(state.doc.bytes(), link_sites_spec(state, viewport)).len(),
        forall|k: int|
            0 <= k < qs@.len() ==> encode_utf8((#[trigger] qs@[k])@) == state.doc.bytes().subrange(
                link_queries(state.doc.bytes(), link_sites_spec(state, viewport))[k].0,
                link_queries(state.doc.bytes(), link_sites_spec(state, viewport))[k].1,
            ),
{
    let text = state.doc.as_str();
    let b = text.as_bytes();
    let table = line_start_table(b);
    let cl = line_of_exec(b, &table, state.selection.main().head);
    let (start, end) = scan_bounds_links(b.len(), viewport);
    let sites = scan_link_sites(text, b, &table, start, end, cl);
    queries_of(text, b, &sites)
}

fn scan_bounds_links(len: usize, viewport: Option<&std::ops::Range<usize>>) -> (r: (usize, usize))
    ensures
        (r.0 as int, r.1 as int) == link_bounds(len as int, viewport),
        r.0 <= len,
        r.1 <= len,
{
    match viewport {
        Some(vp) => (
            if vp.start < len {
                vp.start
            } else {
                len
            },
            if vp.end < len {
                vp.end
            } else {
                len
            },
        ),
        None => (0, len),
    }
}

/// The resolver's answer as the spec sees it.
pub open spec fn answer_view(ans: Option<&Option<String>>) -> Option<Option<String>> {
    match ans {
        None => None,
        Some(a) => Some(*a),
    }
}

/// A clickable pill entry.
fn pill_entry(start: usize, end: usize, label: String, fg: Color, bg: Option<Color>) -> (e: (
    std::ops::Range<usize>,
    Decoration,
))
    ensures
        deco_is(
            e,
            LinkDeco::Pill {
                start: start as int,
                end: end as int,
                label: encode_utf8(label@),
                fg,
                bg,
                id: pill_id(start),
            },
        ),
{
    let widget = WikilinkWidget { text: label, fg, bg, id: WIKILINK_WIDGET_TAG | (start as u64) };
    (start..end, Decoration::InlineWidget { widget, atomic: true })
}

/// Append the decorations of one site to `entries`.
fn push_site_entries(
    text: &str,
    b: &[u8],
    s: LinkSite,
    color: Color,
    ans: Option<&Option<String>>,
    entries: &mut Vec<(std::ops::Range<usize>, Decoration)>,
    Ghost(ds): Ghost<Seq<LinkDeco>>,
)
    requires
        b@ == text.spec_bytes(),
        site_wf(b@, s),
        decos_are(old(entries)@, ds),
    ensures
        decos_are(final(entries)@, ds + site_decos(b@, s, color, answer_view(ans))),
{
    let n = b.len();
    proof {
        encode_utf8_valid_utf8(text@);
        lemma_site_ranges(b@, s);
    }
    let ghost want = site_decos(b@, s, color, answer_view(ans));
    let ghost before = entries@;
    match s {
        LinkSite::Markdown { start, label_end, dest_end, on_cursor } => {
            if !on_cursor {
                proof {
                    lemma_trim_range_bounds(b@, start + 1, label_end as int);
                    lemma_trim_range_boundary(b@, start + 1, label_end as int);
                    lemma_trim_range_bounds(b@, label_end + 2, dest_end as int);
                    lemma_trim_range_boundary(b@, label_end + 2, dest_end as int);
                }
                let (ls, le) = trim_exec(b, start + 1, label_end);
                let (ls, le) = if ls < le {
                    (ls, le)
                } else {
                    trim_exec(b, label_end + 2, dest_end)
                };
                let label = substr(text, ls, le).to_owned();
                let resolved = match ans {
                    None => true,
                    Some(a) => a.is_some(),
                };
                let fg = if resolved {
                    color
                } else {
                    Color::rgb(224, 108, 117)
                };
                let bg = if resolved {
                    Some(pill_bg(color))
                } else {
                    None
                };
                let e = pill_entry(start, dest_end + 1, label, fg, bg);
                entries.push(e);
                proof {
                    assert(entries@ == before.push(e));
                    assert(deco_is(e, want[0]));
                }
            }
        },
        LinkSite::Wiki { start, close, on_cursor } => {
            proof {
                lemma_trim_range_bounds(b@, start + 2, close as int);
                lemma_trim_range_boundary(b@, start + 2, close as int);
            }
            let (ts, te) = trim_exec(b, start + 2, close);
            let target = substr(text, ts, te);
            if !on_cursor {
                let e = match ans {
                    None => {
                        let display = target.to_owned();
                        (start..close + 2, Decoration::Replace { display: Some(display) })
                    },
                    Some(None) => pill_entry(
                        start,
                        close + 2,
                        target.to_owned(),
                        Color::rgb(224, 108, 117),
                        None,
                    ),
                    Some(Some(title)) => {
                        let label = if title.as_str().is_empty() {
                            target.to_owned()
                        } else {
                            title.clone()
                        };
                        pill_entry(start, close + 2, label, color, Some(pill_bg(color)))
                    },
                };
                entries.push(e);
                proof {
                    assert(deco_is(e, want[0]));
                }
            }
            let ghost mid = entries@;
            let mark = MarkStyle {
                bold: false,
                italic: false,
                strikethrough: false,
                underline: true,
                fg: Some(color),
                bg: None,
                font_scale: None,
                monospace: false,
                atomic: false,
            };
            let me = (start + 2..close, Decoration::Mark(mark));
            entries.push(me);
            proof {
                assert(entries@ == mid.push(me));
                assert(deco_is(entries@[entries@.len() - 1], want[want.len() - 1]));
            }
        },
    }
    proof {
        let all = ds + want;
        assert forall|i: int| 0 <= i < entries@.len() implies deco_is(#[trigger] entries@[i], all[i]) by {
            if i < before.len() {
                assert(entries@[i] == before[i]);
            }
        }
    }
}

/// The link decorations of `sites`, given the resolver's answers in query
/// order (`None` when there is no resolver).
fn link_entries(
    text: &str,
    b: &[u8],
    sites: &Vec<LinkSite>,
    color: Color,
    titles: Option<&Vec<Option<String>>>,
) -> (entries: Vec<(std::ops::Range<usize>, Decoration)>)
    requires
        b@ == text.spec_bytes(),
        forall|k: int| 0 <= k < sites@.len() ==> site_wf(b@, #[trigger] sites@[k]),
        titles matches Some(t) ==> t@.len() == link_queries(b@, sites@).len(),
    ensures
        decos_are(
            entries@,
            link_decos(
                b@,
                sites@,
                color,
                match titles {
                    Some(t) => Some(t@),
                    None => None,
                },
            ),
        ),
{
    let ghost answers = match titles {
        Some(t) => Some(t@),
        None => None,
    };
    let mut entries: Vec<(std::ops::Range<usize>, Decoration)> = Vec::new();
    let mut a: usize = 0;
    let mut k: usize = 0;
    while k < sites.len()
        invariant
            b@ == text.spec_bytes(),
            forall|m: int| 0 <= m < sites@.len() ==> site_wf(b@, #[trigger] sites@[m]),
            titles matches Some(t) ==> t@.len() == link_queries(b@, sites@).len(),
            answers == match titles {
                Some(t) => Some(t@),
                None => None,
            },
            k <= sites@.len(),
            a as int == link_queries(b@, sites@.take(k as int)).len(),
            decos_are(entries@, link_decos(b@, sites@.take(k as int), color, answers)),
        decreases sites@.len() - k,
    {
        let s = sites[k];
        let ghost prev = sites@.take(k as int);
        proof {
            let t1 = sites@.take(k + 1);
            assert(t1.drop_last() == prev);
            assert(t1.last() == s);
            lemma_link_queries_prefix(b@, sites@, k + 1);
            lemma_link_queries_len(b@, t1);
        }
        let on = match s {
            LinkSite::Markdown { on_cursor, .. } => on_cursor,
            LinkSite::Wiki { on_cursor, .. } => on_cursor,
        };
        let ans: Option<&Option<String>> = match titles {
            None => None,
            Some(t) => {
                if on {
                    None
                } else {
                    Some(&t[a])
                }
            },
        };
        proof {
            if !on && titles is Some {
                assert(answer_view(ans) == Some(answers->0[link_queries(b@, prev).len() as int]));
            }
        }
        let ghost ds = entries@;
        let ghost ds_spec = link_decos(b@, prev, color, answers);
        push_site_entries(text, b, s, color, ans, &mut entries, Ghost(ds_spec));
        proof {
            let full_ans = match answers {
                None => None,
                Some(t) => Some(t[link_queries(b@, prev).len() as int]),
            };
            assert(site_decos(b@, s, color, answer_view(ans)) == site_decos(b@, s, color, full_ans));
        }
        if !on {
            a = a + 1;
        }
        k = k + 1;
    }
    proof {
        assert(sites@.take(sites@.len() as int) == sites@);
    }
    entries
}

/// There are no more queries than sites.
proof fn lemma_link_queries_len(b: Seq<u8>, sites: Seq<LinkSite>)
    ensures
        link_queries(b, sites).len() <= sites.len(),
    decreases sites.len(),
{
    if sites.len() > 0 {
        lemma_link_queries_len(b, sites.drop_last());
    }
}

/// The query count of a prefix of `sites` never exceeds that of `sites`.
proof fn lemma_link_queries_prefix(b: Seq<u8>, sites: Seq<LinkSite>, k: int)
    requires
        0 <= k <= sites.len(),
    ensures
        link_queries(b, sites.take(k)).len() <= link_queries(b, sites).len(),
    decreases sites.len() - k,
{
    if k < sites.len() {
        lemma_link_queries_prefix(b, sites, k + 1);
        let t1 = sites.take(k + 1);
        assert(t1.drop_last() == sites.take(k));
    } else {
        assert(sites.take(k) == sites);
    }
}

/// The bytes of ```` ``` ````.
pub open spec fn pat_ticks() -> Seq<u8> {
    seq![96u8, 96u8, 96u8]
}

/// The bytes of `~~~`.
pub open spec fn pat_tildes() -> Seq<u8> {
    seq![126u8, 126u8, 126u8]
}

/// Line `l` opens or closes a fenced code block: trimmed, it starts with
/// ```` ``` ```` or `~~~`.
pub open spec fn fence_toggle_line(b: Seq<u8>, l: int) -> bool {
    let t = trim_range(b, line_start(b, l), line_content_end(b, l));
    starts_with_at(b, t.0, t.1, pat_ticks()) || starts_with_at(b, t.0, t.1, pat_tildes())
}

/// Line `l` lies inside a fenced code block: an odd number of fence lines
/// come before it.
pub open spec fn in_fence_before(b: Seq<u8>, l: int) -> bool
    decreases l,
{
    if l <= 0 {
        false
    } else {
        in_fence_before(b, l - 1) != fence_toggle_line(b, l - 1)
    }
}

/// The trailing block marker of line `l`, relative to the line's start.
pub open spec fn line_marker(b: Seq<u8>, l: int) -> Option<(int, int)> {
    block_marker_spec(b.subrange(line_start(b, l), line_content_end(b, l)))
}

/// The fence lines (```` ``` ```` or `~~~`) among lines `0..l`, in order.
pub open spec fn fence_lines_before(b: Seq<u8>, l: int) -> Seq<int> {
    Seq::new(l as nat, |i: int| i).filter(|i: int| fence_toggle_line(b, i))
}

/// A line lies inside a fenced code block exactly when an odd number of
/// fence lines come before it: each fence line opens or closes a block, so
/// a line after a closed fence is outside again.
pub proof fn lemma_in_fence_parity(b: Seq<u8>, l: int)
    requires
        l >= 0,
    ensures
        in_fence_before(b, l) <==> fence_lines_before(b, l).len() % 2 == 1,
    decreases l,
{
    if l > 0 {
        lemma_in_fence_parity(b, l - 1);
        reveal(Seq::filter);
        let pred = |i: int| fence_toggle_line(b, i);
        let all = Seq::new(l as nat, |i: int| i);
        let prev = Seq::new((l - 1) as nat, |i: int| i);
        assert(all.drop_last() =~= prev);
        assert(all.last() == l - 1);
        assert(fence_lines_before(b, l) == all.filter(pred));
        assert(fence_lines_before(b, l - 1) == prev.filter(pred));
        assert(all.filter(pred) == if pred(all.last()) {
            all.drop_last().filter(pred).push(all.last())
        } else {
            all.drop_last().filter(pred)
        });
    } else {
        reveal(Seq::filter);
        assert(Seq::new(0nat, |i: int| i).len() == 0);
    }
}

proof fn lemma_marker_decos_prefix(b: Seq<u8>, cl: int, l: int, upto: int, d: LinkDeco)
    requires
        0 <= l < upto,
        marker_decos(b, cl, l + 1).contains(d),
    ensures
        marker_decos(b, cl, upto).contains(d),
    decreases upto - l,
{
    if upto > l + 1 {
        lemma_marker_decos_prefix(b, cl, l, upto - 1, d);
        let prev = marker_decos(b, cl, upto - 1);
        let p = choose|p: int| 0 <= p < prev.len() && prev[p] == d;
        assert(marker_decos(b, cl, upto)[p] == d);
    }
}

/// A trailing block marker off the cursor line is concealed whenever its
/// line is no fence line and an even number of fence lines come before it,
/// in particular on every line after a closed code block.
pub proof fn lemma_marker_concealed_outside_fences(b: Seq<u8>, cl: int, l: int)
    requires
        0 <= l < line_count(b),
        l != cl,
        !fence_toggle_line(b, l),
        fence_lines_before(b, l).len() % 2 == 0,
        line_marker(b, l) is Some,
    ensures
        line_marker(b, l) matches Some(m) && marker_decos(b, cl, line_count(b)).contains(
            LinkDeco::Conceal { start: line_start(b, l) + m.0, end: line_start(b, l) + m.1 },
        ),
{
    lemma_in_fence_parity(b, l);
    let m = line_marker(b, l)->0;
    let d = LinkDeco::Conceal { start: line_start(b, l) + m.0, end: line_start(b, l) + m.1 };
    let prev = marker_decos(b, cl, l);
    assert(marker_decos(b, cl, l + 1) == prev + seq![d]);
    assert(marker_decos(b, cl, l + 1)[prev.len() as int] == d);
    lemma_marker_decos_prefix(b, cl, l, line_count(b), d);
}

/// The concealed block markers of lines `0..upto`, with the cursor on line
/// `cl`: every marker on a line that is neither a fence line, inside a fence,
/// nor the cursor line.
pub open spec fn marker_decos(b: Seq<u8>, cl: int, upto: int) -> Seq<LinkDeco>
    decreases upto,
{
    if upto <= 0 {
        seq![]
    } else {
        let l = upto - 1;
        marker_decos(b, cl, l) + if !fence_toggle_line(b, l) && !in_fence_before(b, l) && line_marker(
            b,
            l,
        ) is Some && l != cl {
            let m = line_marker(b, l)->0;
            seq![LinkDeco::Conceal { start: line_start(b, l) + m.0, end: line_start(b, l) + m.1 }]
        } else {
            seq![]
        }
    }
}

fn ticks_pat() -> (v: Vec<u8>)
    ensures
        v@ == pat_ticks(),
{
    let v: Vec<u8> = vec![96u8, 96u8, 96u8];
    assert(v@ == pat_ticks());
    v
}

fn tildes_pat() -> (v: Vec<u8>)
    ensures
        v@ == pat_tildes(),
{
    let v: Vec<u8> = vec![126u8, 126u8, 126u8];
    assert(v@ == pat_tildes());
    v
}

/// A line's start and its content end fall on character boundaries.
pub proof fn lemma_line_boundaries(b: Seq<u8>, l: int)
    requires
        valid_utf8(b),
        0 <= l < line_count(b),
    ensures
        is_char_boundary(b, line_start(b, l)),
        is_char_boundary(b, line_content_end(b, l)),
        line_start(b, l) <= line_content_end(b, l) <= b.len(),
{
    lemma_lines(b);
    crate::document::lemma_line_starts_shape(b, b.len() as int);
    if l == 0 {
        is_char_boundary_start_end_of_seq(b);
    } else {
        lemma_after_ascii_is_boundary(b, line_start(b, l) - 1);
    }
    if l + 1 < line_count(b) {
        lemma_ascii_is_boundary(b, line_content_end(b, l));
    } else {
        is_char_boundary_start_end_of_seq(b);
    }
}

/// Append a conceal entry for the trailing ` ^blockid` marker of every line
/// off the cursor line that carries one. Fenced code blocks are skipped, so
/// a `^id` token inside a fence is never concealed.
fn push_marker_entries(
    text: &str,
    b: &[u8],
    table: &Vec<usize>,
    cl: usize,
    entries: &mut Vec<(std::ops::Range<usize>, Decoration)>,
    Ghost(ds): Ghost<Seq<LinkDeco>>,
)
    requires
        b@ == text.spec_bytes(),
        is_line_table(b@, table@),
        decos_are(old(entries)@, ds),
    ensures
        decos_are(final(entries)@, ds + marker_decos(b@, cl as int, line_count(b@))),
{
    proof {
        encode_utf8_valid_utf8(text@);
    }
    let ticks = ticks_pat();
    let tildes = tildes_pat();
    let n = table.len();
    let mut in_fence = false;
    let mut l: usize = 0;
    while l < n
        invariant
            b@ == text.spec_bytes(),
            valid_utf8(b@),
            is_line_table(b@, table@),
            n == table@.len(),
            ticks@ == pat_ticks(),
            tildes@ == pat_tildes(),
            l <= n,
            in_fence == in_fence_before(b@, l as int),
            decos_are(entries@, ds + marker_decos(b@, cl as int, l as int)),
        decreases n - l,
    {
        proof {
            lemma_line_boundaries(b@, l as int);
        }
        let ls = line_start_at(b, table, l);
        let ce = line_content_end_at(b, table, l);
        proof {
            lemma_trim_range_bounds(b@, ls as int, ce as int);
        }
        let (ts, te) = trim_exec(b, ls, ce);
        let toggle = starts_with_at_exec(b, ts, te, ticks.as_slice()) || starts_with_at_exec(
            b,
            ts,
            te,
            tildes.as_slice(),
        );
        let ghost before = entries@;
        if toggle {
            in_fence = !in_fence;
        } else if !in_fence {
            let line = substr(text, ls, ce);
            match trailing_block_marker(line) {
                Some(r) => {
                    if l != cl {
                        proof {
                            let m = line_marker(b@, l as int)->0;
                            assert(r.start == m.0 && r.end == m.1);
                            assert(m.1 == ce - ls);
                            lemma_last_ws_before(
                                line.spec_bytes(),
                                0,
                                trim_end_pos(line.spec_bytes(), 0, (ce - ls) as int),
                                trim_end_pos(line.spec_bytes(), 0, (ce - ls) as int),
                            );
                            lemma_trim_end_bounds(line.spec_bytes(), 0, (ce - ls) as int);
                        }
                        let e = (ls + r.start..ls + r.end, Decoration::Replace { display: None });
                        entries.push(e);
                        proof {
                            assert(entries@ == before.push(e));
                        }
                    }
                },
                None => {},
            }
        }
        proof {
            let want = ds + marker_decos(b@, cl as int, l + 1);
            assert(marker_decos(b@, cl as int, l + 1) == marker_decos(b@, cl as int, l as int) + if !fence_toggle_line(b@, l as int)
                && !in_fence_before(b@, l as int) && line_marker(b@, l as int) is Some && l != cl {
                let m = line_marker(b@, l as int)->0;
                seq![LinkDeco::Conceal { start: line_start(b@, l as int) + m.0, end: line_start(b@, l as int) + m.1 }]
            } else {
                seq![]
            });
            assert forall|i: int| 0 <= i < entries@.len() implies deco_is(#[trigger] entries@[i], want[i]) by {
                if i < before.len() {
                    assert(entries@[i] == before[i]);
                }
            }
        }
        l = l + 1;
    }
}

/// The link color: the theme's, or the default wikilink blue.
pub open spec fn link_color(theme: Option<&Theme>) -> Color {
    match theme {
        Some(t) => t.markdown.link,
        None => color_wikilink(),
    }
}

/// Every decoration of the link provider: the link decorations of the
/// viewport's links, given the resolver's answers (`None` without a
/// resolver), then the concealed block markers of the whole document.
pub open spec fn wikilink_decos(
    state: &EditorState,
    theme: Option<&Theme>,
    viewport: Option<&std::ops::Range<usize>>,
    answers: Option<Seq<Option<String>>>,
) -> Seq<LinkDeco> {
    let b = state.doc.bytes();
    link_decos(b, link_sites_spec(state, viewport), link_color(theme), answers) + marker_decos(
        b,
        cursor_line(state),
        line_count(b),
    )
}

/// Link decorations built from the resolver's answers `titles`, one per
/// query of [`wikilink_queries`] in order (`None` when there is no
/// resolver): off-cursor links collapse to pills (or plain replacements
/// without a resolver), wikilink bodies are underlined, and block markers off
/// the cursor line are concealed.
pub fn wikilink_decorations_with_titles(
    state: &EditorState,
    theme: Option<&Theme>,
    viewport: Option<&std::ops::Range<usize>>,
    titles: Option<&Vec<Option<String>>>,
) -> (res: DecorationSet)
    requires
        titles matches Some(t) ==> t@.len() == link_queries(
            state.doc.bytes(),
            link_sites_spec(state, viewport),
        ).len(),
    ensures
        decos_are(
            res.entries@,
            wikilink_decos(
                state,
                theme,
                viewport,
                match titles {
                    Some(t) => Some(t@),
                    None => None,
                },
            ),
        ),
{
    let color = match theme {
        Some(t) => t.markdown.link,
        None => Color::rgb(86, 156, 214),
    };
    let text = state.doc.as_str();
    let b = text.as_bytes();
    let table = line_start_table(b);
    let cl = line_of_exec(b, &table, state.selection.main().head);
    let (start, end) = scan_bounds_links(b.len(), viewport);
    let sites = scan_link_sites(text, b, &table, start, end, cl);
    let mut entries = link_entries(text, b, &sites, color, titles);
    let ghost ds = entries@;
    let ghost lds = link_decos(
        b@,
        sites@,
        color,
        match titles {
            Some(t) => Some(t@),
            None => None,
        },
    );
    push_marker_entries(text, b, &table, cl, &mut entries, Ghost(lds));
    DecorationSet::from_entries(entries)
}

/// The resolver answered `t` when asked about some text whose UTF-8 bytes are
/// `q`.
pub open spec fn answered<F: Fn(&str) -> Option<String>>(f: F, q: Seq<u8>, t: Option<String>) -> bool {
    exists|s: &str| encode_utf8(s@) == q && #[trigger] call_ensures(f, (s,), t)
}

/// Wikilink and vault-link decorations. With a `resolve` closure, each link
/// off the cursor line is looked up once, in document order, and the
/// answers drive the pills as [`wikilink_decorations_with_titles`] says;
/// without one, links fall back to plain replacements.
pub fn wikilink_decorations<F: Fn(&str) -> Option<String>>(
    state: &EditorState,
    theme: Option<&Theme>,
    viewport: Option<&std::ops::Range<usize>>,
    resolve: Option<&F>,
) -> (res: DecorationSet)
    requires
        resolve matches Some(f) ==> forall|s: &str| call_requires(*f, (s,)),
    ensures
        match resolve {
            None => decos_are(res.entries@, wikilink_decos(state, theme, viewport, None)),
            Some(f) => {
                let qs = link_queries(state.doc.bytes(), link_sites_spec(state, viewport));
                exists|ts: Seq<Option<String>>|
                    {
                        &&& ts.len() == qs.len()
                        &&& forall|k: int|
                            0 <= k < ts.len() ==> answered(
                                *f,
                                state.doc.bytes().subrange(qs[k].0, qs[k].1),
                                #[trigger] ts[k],
                            )
                        &&& decos_are(res.entries@, wikilink_decos(state, theme, viewport, Some(ts)))
                    }
            },
        },
{
    match resolve {
        None => wikilink_decorations_with_titles(state, theme, viewport, None),
        Some(f) => {
            let queries = wikilink_queries(state, viewport);
            let ghost qs = link_queries(state.doc.bytes(), link_sites_spec(state, viewport));
            let mut titles: Vec<Option<String>> = Vec::new();
            let mut k: usize = 0;
            while k < queries.len()
                invariant
                    forall|s: &str| call_requires(*f, (s,)),
                    qs == link_queries(state.doc.bytes(), link_sites_spec(state, viewport)),
                    queries@.len() == qs.len(),
                    forall|m: int|
                        0 <= m < queries@.len() ==> encode_utf8((#[trigger] queries@[m])@)
                            == state.doc.bytes().subrange(qs[m].0, qs[m].1),
                    k <= queries@.len(),
                    titles@.len() == k,
                    forall|m: int|
                        0 <= m < k ==> answered(
                            *f,
                            state.doc.bytes().subrange(qs[m].0, qs[m].1),
                            #[trigger] titles@[m],
                        ),
                decreases queries@.len() - k,
            {
                let q = queries[k].as_str();
                let t = f(q);
                proof {
                    assert(encode_utf8(q@) == state.doc.bytes().subrange(qs[k as int].0, qs[k as int].1));
                    assert(answered(*f, state.doc.bytes().subrange(qs[k as int].0, qs[k as int].1), t));
                }
                titles.push(t);
                k = k + 1;
            }
            let res = wikilink_decorations_with_titles(state, theme, viewport, Some(&titles));
            proof {
                assert(titles@.len() == qs.len());
            }
            res
        },
    }
}

/// A pill's click id always carries [`WIKILINK_WIDGET_TAG`], and for a link
/// opening below byte 2^62 its remaining bits are the link's start byte, so
/// the host can tell wikilink clicks apart and re-parse the link there.
pub proof fn lemma_pill_id_roundtrip(start: usize)
    ensures
        pill_id(start) & WIKILINK_WIDGET_TAG == WIKILINK_WIDGET_TAG,
        (start as u64) < WIKILINK_WIDGET_TAG ==> pill_id(start) & !WIKILINK_WIDGET_TAG == start as u64,
{
    let x = start as u64;
    assert((0x4000_0000_0000_0000u64 | x) & 0x4000_0000_0000_0000u64 == 0x4000_0000_0000_0000u64)
        by (bit_vector);
    assert(x < 0x4000_0000_0000_0000u64 ==> (0x4000_0000_0000_0000u64 | x) & !0x4000_0000_0000_0000u64
        == x) by (bit_vector);
}

/// A concealed block marker runs from a whitespace character to the end of
/// the line, with a `^` right after that whitespace and non-blank text
/// before it, so concealing it also swallows the separating space; after the
/// `^` comes a non-empty id of `[A-Za-z0-9-]` bytes up to the trailing
/// whitespace, and that whitespace character is the last one before the id.
pub proof fn lemma_block_marker_shape(s: Seq<u8>)
    ensures
        block_marker_spec(s) matches Some(m) ==> {
            &&& 0 < m.0 < m.1
            &&& m.1 == s.len()
            &&& ws_len_at(s, m.0, m.1) > 0
            &&& s[trim_start_pos(s, m.0, trim_end_pos(s, 0, m.1))] == CARET
            &&& trim_range(s, 0, m.0).0 < trim_range(s, 0, m.0).1
            &&& trim_start_pos(s, m.0, trim_end_pos(s, 0, m.1)) + 1 < trim_end_pos(s, 0, m.1)
            &&& forall|x: int|
                trim_start_pos(s, m.0, trim_end_pos(s, 0, m.1)) < x < trim_end_pos(s, 0, m.1)
                    ==> spec_is_block_id_byte(#[trigger] s[x])
            &&& forall|x: int| m.0 < x < trim_end_pos(s, 0, m.1) ==> #[trigger] ws_len_at(s, x, trim_end_pos(s, 0, m.1)) == 0
        },
{
    let n = s.len() as int;
    let te = trim_end_pos(s, 0, n);
    lemma_trim_end_bounds(s, 0, n);
    lemma_last_ws_before(s, 0, te, te);
    let p = last_ws_before(s, 0, te, te);
    if p >= 0 {
        lemma_trim_range_bounds(s, 0, p);
        if ws_len_at(s, p, te) > 0 {
            assert(ws_len_at(s, p, n) > 0);
        }
    }
}

proof fn lemma_last_ws_before_is(s: Seq<u8>, lo: int, hi: int, p: int, top: int)
    requires
        lo <= p < top,
        ws_len_at(s, p, hi) > 0,
        forall|x: int| p < x < top ==> #[trigger] ws_len_at(s, x, hi) == 0,
    ensures
        last_ws_before(s, lo, hi, top) == p,
    decreases top - p,
{
    if top - 1 > p {
        assert(ws_len_at(s, top - 1, hi) == 0);
        lemma_last_ws_before_is(s, lo, hi, p, top - 1);
    }
}

/// The converse of [`lemma_block_marker_shape`]: a line made of non-blank
/// text, one whitespace character at `p`, `^`, a non-empty id over
/// `[A-Za-z0-9-]` ending at `te`, and trailing whitespace only after `te`
/// carries a marker running from `p` to the end of the line.
pub proof fn lemma_block_marker_found(s: Seq<u8>, p: int, te: int)
    requires
        0 <= p < te <= s.len(),
        trim_end_pos(s, 0, s.len() as int) == te,
        ws_len_at(s, p, te) > 0,
        s[p + ws_len_at(s, p, te)] == CARET,
        p + ws_len_at(s, p, te) + 1 < te,
        forall|x: int| p + ws_len_at(s, p, te) < x < te ==> spec_is_block_id_byte(#[trigger] s[x]),
        trim_range(s, 0, p).0 < trim_range(s, 0, p).1,
    ensures
        block_marker_spec(s) == Some((p, s.len() as int)),
{
    let w = ws_len_at(s, p, te);
    let q = p + w;
    assert forall|x: int| p < x < te implies #[trigger] ws_len_at(s, x, te) == 0 by {
        if x > q {
            assert(spec_is_block_id_byte(s[x]));
        }
    }
    lemma_last_ws_before_is(s, 0, te, p, te);
    assert(ws_len_at(s, q, te) == 0);
    assert(trim_start_pos(s, p, te) == trim_start_pos(s, q, te));
}

/// A link on the cursor line stays raw for editing: it gets no pill and no
/// replacement, only a wikilink's underline; off the cursor line every link
/// collapses to exactly one pill or replacement.
pub proof fn lemma_cursor_line_reveals(b: Seq<u8>, s: LinkSite, color: Color, ans: Option<Option<String>>)
    ensures
        s.spec_on_cursor() ==> site_decos(b, s, color, ans) == match s {
            LinkSite::Markdown { .. } => Seq::<LinkDeco>::empty(),
            LinkSite::Wiki { start, close, .. } => seq![
                LinkDeco::Underline { start: start + 2, end: close as int, color },
            ],
        },
        !s.spec_on_cursor() ==> (site_decos(b, s, color, ans)[0] is Pill || site_decos(
            b,
            s,
            color,
            ans,
        )[0] is Plain) && site_decos(b, s, color, ans).len() == match s {
            LinkSite::Markdown { .. } => 1int,
            LinkSite::Wiki { .. } => 2int,
        },
{
    match s {
        LinkSite::Markdown { .. } => {},
        LinkSite::Wiki { start, close, on_cursor } => {
            if on_cursor {
                assert(site_decos(b, s, color, ans) =~= seq![
                    LinkDeco::Underline { start: start + 2, end: close as int, color },
                ]);
            }
        },
    }
}

/// The resolver's answer for site `k` of `sites`: the answer to its query
/// among the queries of the sites before it (`None` with no resolver).
pub open spec fn site_answer(
    b: Seq<u8>,
    sites: Seq<LinkSite>,
    answers: Option<Seq<Option<String>>>,
    k: int,
) -> Option<Option<String>> {
    match answers {
        None => None,
        Some(a) => Some(a[link_queries(b, sites.subrange(0, k)).len() as int]),
    }
}

/// The link decorations are exactly those of each site, given its own answer.
#[verifier::spinoff_prover]
#[verifier::rlimit(40)]
proof fn lemma_link_decos_by_site(b: Seq<u8>, sites: Seq<LinkSite>, color: Color, answers: Option<Seq<Option<String>>>)
    ensures
        forall|k: int, d: LinkDeco|
            0 <= k < sites.len() && #[trigger] site_decos(b, sites[k], color, site_answer(b, sites, answers, k)).contains(d)
                ==> link_decos(b, sites, color, answers).contains(d),
        forall|d: LinkDeco|
            #[trigger] link_decos(b, sites, color, answers).contains(d) ==> exists|k: int|
                0 <= k < sites.len() && #[trigger] site_decos(
                    b,
                    sites[k],
                    color,
                    site_answer(b, sites, answers, k),
                ).contains(d),
    decreases sites.len(),
{
    if sites.len() > 0 {
        let n = sites.len() - 1;
        let prev = sites.drop_last();
        lemma_link_decos_by_site(b, prev, color, answers);
        let head = link_decos(b, prev, color, answers);
        let last = site_decos(b, sites[n], color, site_answer(b, sites, answers, n));
        assert(sites.subrange(0, n) =~= prev);
        assert(link_decos(b, sites, color, answers) == head + last);
        assert forall|k: int| 0 <= k < n implies site_answer(b, sites, answers, k) == site_answer(
            b,
            prev,
            answers,
            k,
        ) && #[trigger] sites[k] == prev[k] by {
            assert(sites.subrange(0, k) =~= prev.subrange(0, k));
        }
        assert forall|k: int, d: LinkDeco|
            0 <= k < sites.len() && #[trigger] site_decos(b, sites[k], color, site_answer(b, sites, answers, k)).contains(d)
                implies link_decos(b, sites, color, answers).contains(d) by {
            if k < n {
                assert(site_decos(b, prev[k], color, site_answer(b, prev, answers, k)).contains(d));
                let p = choose|p: int| 0 <= p < head.len() && head[p] == d;
                assert((head + last)[p] == d);
            } else {
                let p = choose|p: int| 0 <= p < last.len() && last[p] == d;
                assert((head + last)[head.len() + p] == d);
            }
        }
        assert forall|d: LinkDeco| #[trigger] link_decos(b, sites, color, answers).contains(d) implies exists|k: int|
            0 <= k < sites.len() && #[trigger] site_decos(
                b,
                sites[k],
                color,
                site_answer(b, sites, answers, k),
            ).contains(d) by {
            let p = choose|p: int| 0 <= p < (head + last).len() && (head + last)[p] == d;
            if p < head.len() {
                assert(head[p] == d);
                assert(head.contains(d));
                let k = choose|k: int|
                    0 <= k < prev.len() && #[trigger] site_decos(b, prev[k], color, site_answer(b, prev, answers, k)).contains(d);
                assert(sites[k] == prev[k]);
                assert(site_decos(b, sites[k], color, site_answer(b, sites, answers, k)).contains(d));
            } else {
                assert(last[p - head.len()] == d);
                assert(last.contains(d));
            }
        }
    }
}

/// The range a pill or plain replacement covers, or `None` for the other
/// decorations.
pub open spec fn replaced_range(d: LinkDeco) -> Option<(int, int)> {
    match d {
        LinkDeco::Pill { start, end, .. } => Some((start, end)),
        LinkDeco::Plain { start, end, .. } => Some((start, end)),
        _ => None,
    }
}

/// The decorations of one wikilink: its body is always underlined in the
/// link color; off the cursor line its whole span `[[…]]` is replaced (by a
/// pill or by its plain target), and on the cursor line nothing replaces any
/// span that starts where the link does, so it stays raw for editing.
pub proof fn lemma_wikilink_per_link(
    state: &EditorState,
    theme: Option<&Theme>,
    viewport: Option<&std::ops::Range<usize>>,
    answers: Option<Seq<Option<String>>>,
    k: int,
)
    requires
        state.doc.bytes().len() <= usize::MAX,
        0 <= k < link_sites_spec(state, viewport).len(),
        link_sites_spec(state, viewport)[k] is Wiki,
    ensures
        ({
            let ds = wikilink_decos(state, theme, viewport, answers);
            let site = link_sites_spec(state, viewport)[k];
            let start = site->Wiki_start;
            let close = site->Wiki_close;
            &&& ds.contains(LinkDeco::Underline { start: start + 2, end: close as int, color: link_color(theme) })
            &&& !site->Wiki_on_cursor ==> exists|d: LinkDeco|
                #[trigger] ds.contains(d) && replaced_range(d) == Some((start as int, close + 2))
            &&& site->Wiki_on_cursor ==> forall|d: LinkDeco|
                #[trigger] ds.contains(d) ==> !(replaced_range(d) matches Some(rr) && rr.0 == start)
        }),
{
    let b = state.doc.bytes();
    let sites = link_sites_spec(state, viewport);
    let color = link_color(theme);
    let r = link_bounds(b.len() as int, viewport);
    let cl = cursor_line(state);
    let ld = link_decos(b, sites, color, answers);
    let md = marker_decos(b, cl, line_count(b));
    let ds = wikilink_decos(state, theme, viewport, answers);
    assert(ds == ld + md);
    lemma_link_decos_by_site(b, sites, color, answers);
    let site = sites[k];
    let start = site->Wiki_start;
    let close = site->Wiki_close;
    let own = site_decos(b, site, color, site_answer(b, sites, answers, k));
    lemma_cursor_line_reveals(b, site, color, site_answer(b, sites, answers, k));
    let u = LinkDeco::Underline { start: start + 2, end: close as int, color };
    assert(own[own.len() - 1] == u);
    assert(own.contains(u));
    assert(ld.contains(u));
    let p = choose|p: int| 0 <= p < ld.len() && ld[p] == u;
    assert((ld + md)[p] == u);
    if !site->Wiki_on_cursor {
        let d = own[0];
        assert(own.contains(d));
        assert(ld.contains(d));
        let q = choose|q: int| 0 <= q < ld.len() && ld[q] == d;
        assert((ld + md)[q] == d);
        assert(ds.contains(d));
    } else {
        lemma_link_sites_ordered(b, r.0, r.1, cl);
        lemma_marker_decos_conceal(b, cl, line_count(b));
        assert forall|d: LinkDeco| #[trigger] ds.contains(d) implies !(replaced_range(d) matches Some(rr) && rr.0
            == start) by {
            let q = choose|q: int| 0 <= q < ds.len() && ds[q] == d;
            if q < ld.len() {
                assert(ld[q] == d);
                assert(ld.contains(d));
                let m = choose|m: int|
                    0 <= m < sites.len() && #[trigger] site_decos(b, sites[m], color, site_answer(b, sites, answers, m)).contains(d);
                if replaced_range(d) is Some {
                    lemma_site_replaced_start(b, sites[m], color, site_answer(b, sites, answers, m), d);
                }
                if replaced_range(d) is Some && m != k {
                    if m < k {
                        assert(site_span(sites[m]).1 <= site_span(sites[k]).0);
                    } else {
                        assert(site_span(sites[k]).1 <= site_span(sites[m]).0);
                    }
                }
            } else {
                assert(md[q - ld.len()] == d);
            }
        }
    }
}

/// The pill or plain replacement of a site starts where the site does, and
/// only an off-cursor site has one.
proof fn lemma_site_replaced_start(b: Seq<u8>, s: LinkSite, color: Color, ans: Option<Option<String>>, d: LinkDeco)
    requires
        site_decos(b, s, color, ans).contains(d),
        replaced_range(d) is Some,
    ensures
        replaced_range(d) matches Some(rr) && rr.0 == site_span(s).0,
        !s.spec_on_cursor(),
{
    let ds = site_decos(b, s, color, ans);
    let q = choose|q: int| 0 <= q < ds.len() && ds[q] == d;
    lemma_cursor_line_reveals(b, s, color, ans);
    match s {
        LinkSite::Markdown { .. } => {},
        LinkSite::Wiki { start, close, on_cursor } => {
            if on_cursor {
                assert(ds[q] == LinkDeco::Underline { start: start + 2, end: close as int, color });
            } else {
                assert(ds[1] == LinkDeco::Underline { start: start + 2, end: close as int, color });
            }
        },
    }
}

/// The block-marker decorations only conceal.
proof fn lemma_marker_decos_conceal(b: Seq<u8>, cl: int, upto: int)
    ensures
        forall|i: int| 0 <= i < marker_decos(b, cl, upto).len() ==> #[trigger] marker_decos(b, cl, upto)[i] is Conceal,
    decreases upto,
{
    if upto > 0 {
        lemma_marker_decos_conceal(b, cl, upto - 1);
        let prev = marker_decos(b, cl, upto - 1);
        assert forall|i: int| 0 <= i < marker_decos(b, cl, upto).len() implies #[trigger] marker_decos(b, cl, upto)[i] is Conceal by {
            if i < prev.len() {
                assert(marker_decos(b, cl, upto)[i] == prev[i]);
            }
        }
    }
}

/// The bytes a site spans: from its `[` to just past its closing `)` or
/// `]]`.
pub open spec fn site_span(s: LinkSite) -> (int, int) {
    match s {
        LinkSite::Markdown { start, dest_end, .. } => (start as int, dest_end + 1),
        LinkSite::Wiki { start, close, .. } => (start as int, close + 2),
    }
}

proof fn lemma_md_link_spec_bounds(b: Seq<u8>, i: int)
    requires
        0 <= i,
    ensures
        md_link_spec(b, i) matches Some(km) ==> i < km.0 && km.0 + 2 <= km.1 < b.len(),
{
    if 0 <= i < b.len() && b[i] == LBRACKET {
        lemma_first_of_from(b, i + 1, RBRACKET, NL);
        let k = first_of_from(b, i + 1, RBRACKET, NL);
        if k + 2 <= b.len() {
            lemma_first_of_from(b, k + 2, RPAREN, NL);
        }
    }
}

proof fn lemma_wiki_close_bounds(b: Seq<u8>, i: int)
    requires
        0 <= i,
    ensures
        wiki_close_spec(b, i) matches Some(co) ==> i + 2 <= co.0 && co.0 + 1 < b.len(),
{
    lemma_code_close_from(b, i + 2, 0, false);
    lemma_flat_close_from(b, i + 2);
}

/// The links a scan finds come in document order without overlap: each
/// opens at or after where the scan started, ends within the text, and ends
/// no later than the next one opens.
pub proof fn lemma_link_sites_ordered(b: Seq<u8>, i: int, end: int, cl: int)
    requires
        0 <= i,
        b.len() <= usize::MAX,
    ensures
        forall|k: int|
            0 <= k < link_sites_from(b, i, end, cl).len() ==> {
                let sp = site_span(#[trigger] link_sites_from(b, i, end, cl)[k]);
                i <= sp.0 < sp.1 <= b.len()
            },
        forall|k: int, m: int|
            0 <= k < m < link_sites_from(b, i, end, cl).len() ==> site_span(
                #[trigger] link_sites_from(b, i, end, cl)[k],
            ).1 <= site_span(#[trigger] link_sites_from(b, i, end, cl)[m]).0,
    decreases gap(i, end),
{
    let all = link_sites_from(b, i, end, cl);
    if !(i + 1 >= end || end > b.len()) {
        if md_site_at(b, i) {
            lemma_md_link_spec_bounds(b, i);
            let km = md_link_spec(b, i)->0;
            let fe = km.1 + 1;
            lemma_link_sites_ordered(b, fe, end, cl);
            let rest = link_sites_from(b, fe, end, cl);
            let site = LinkSite::Markdown {
                start: i as usize,
                label_end: km.0 as usize,
                dest_end: km.1 as usize,
                on_cursor: on_cursor_span(b, i, fe, cl),
            };
            assert(all == seq![site] + rest);
            assert forall|k: int| 0 <= k < all.len() implies {
                let sp = site_span(#[trigger] all[k]);
                i <= sp.0 < sp.1 <= b.len()
            } by {
                if k > 0 {
                    assert(all[k] == rest[k - 1]);
                }
            }
            assert forall|k: int, m: int| 0 <= k < m < all.len() implies site_span(#[trigger] all[k]).1
                <= site_span(#[trigger] all[m]).0 by {
                assert(all[m] == rest[m - 1]);
                if k > 0 {
                    assert(all[k] == rest[k - 1]);
                }
            }
        } else if b[i] == LBRACKET && b[i + 1] == LBRACKET {
            lemma_wiki_close_bounds(b, i);
            match wiki_close_spec(b, i) {
                None => {
                    lemma_link_sites_ordered(b, i + 1, end, cl);
                    assert(all == link_sites_from(b, i + 1, end, cl));
                },
                Some(co) => {
                    let c = co.0;
                    lemma_link_sites_ordered(b, c + 2, end, cl);
                    let rest = link_sites_from(b, c + 2, end, cl);
                    if co.1 {
                        let site = LinkSite::Wiki {
                            start: i as usize,
                            close: c as usize,
                            on_cursor: on_cursor_span(b, i, c + 2, cl),
                        };
                        assert(all == seq![site] + rest);
                        assert forall|k: int| 0 <= k < all.len() implies {
                            let sp = site_span(#[trigger] all[k]);
                            i <= sp.0 < sp.1 <= b.len()
                        } by {
                            if k > 0 {
                                assert(all[k] == rest[k - 1]);
                            }
                        }
                        assert forall|k: int, m: int| 0 <= k < m < all.len() implies site_span(
                            #[trigger] all[k],
                        ).1 <= site_span(#[trigger] all[m]).0 by {
                            assert(all[m] == rest[m - 1]);
                            if k > 0 {
                                assert(all[k] == rest[k - 1]);
                            }
                        }
                    } else {
                        assert(all == rest);
                    }
                },
            }
        } else {
            lemma_link_sites_ordered(b, i + 1, end, cl);
            assert(all == link_sites_from(b, i + 1, end, cl));
        }
    }
}

} // verus!
