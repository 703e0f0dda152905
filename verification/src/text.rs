//! Byte-level text primitives shared by the markdown scanners.
//!
//! All scanners in this crate work on the UTF-8 bytes of a document. The
//! helpers here give those bytes the vocabulary the scanners need: Unicode
//! whitespace (`char::is_whitespace`, i.e. the `White_Space` property) spelled
//! out as UTF-8 byte patterns, trimming, ASCII case folding, and carving a
//! `&str` out of a byte range that lies on character boundaries.

use vstd::prelude::*;
use vstd::string::*;
use vstd::utf8::*;

verus! {

broadcast use vstd::seq::group_seq_axioms;

/// `\n`
pub const NL: u8 = 10;

/// One-byte whitespace: `\t`, `\n`, vertical tab, form feed, `\r`, space.
pub open spec fn is_ascii_ws(x: u8) -> bool {
    (9 <= x && x <= 13) || x == 32
}

/// The three-byte encodings of the `White_Space` characters U+1680,
/// U+2000..=U+200A, U+2028, U+2029, U+202F, U+205F and U+3000.
pub open spec fn is_ws3(x: u8, y: u8, z: u8) -> bool {
    ||| (x == 0xe1 && y == 0x9a && z == 0x80)
    ||| (x == 0xe2 && y == 0x80 && ((0x80 <= z && z <= 0x8a) || z == 0xa8 || z == 0xa9 || z == 0xaf))
    ||| (x == 0xe2 && y == 0x81 && z == 0x9f)
    ||| (x == 0xe3 && y == 0x80 && z == 0x80)
}

/// The two-byte encodings of the `White_Space` characters U+0085 and U+00A0.
pub open spec fn is_ws2(x: u8, y: u8) -> bool {
    x == 0xc2 && (y == 0x85 || y == 0xa0)
}

/// Byte length of the whitespace character that starts at `i` and ends at or
/// before `hi`, or 0 when no whitespace character starts there.
pub open spec fn ws_len_at(b: Seq<u8>, i: int, hi: int) -> int {
    if 0 <= i && i + 1 <= hi && hi <= b.len() && is_ascii_ws(b[i]) {
        1
    } else if 0 <= i && i + 2 <= hi && hi <= b.len() && is_ws2(b[i], b[i + 1]) {
        2
    } else if 0 <= i && i + 3 <= hi && hi <= b.len() && is_ws3(b[i], b[i + 1], b[i + 2]) {
        3
    } else {
        0
    }
}

/// Byte length of the whitespace character that ends at `j` and starts at or
/// after `lo`, or 0 when no whitespace character ends there.
pub open spec fn ws_len_before(b: Seq<u8>, lo: int, j: int) -> int {
    if 0 <= lo && lo + 1 <= j && j <= b.len() && is_ascii_ws(b[j - 1]) {
        1
    } else if 0 <= lo && lo + 2 <= j && j <= b.len() && is_ws2(b[j - 2], b[j - 1]) {
        2
    } else if 0 <= lo && lo + 3 <= j && j <= b.len() && is_ws3(b[j - 3], b[j - 2], b[j - 1]) {
        3
    } else {
        0
    }
}

/// Start of `b[lo..hi]` once leading whitespace is removed (`str::trim_start`).
pub open spec fn trim_start_pos(b: Seq<u8>, lo: int, hi: int) -> int
    decreases hi - lo,
{
    if lo < hi && ws_len_at(b, lo, hi) > 0 {
        trim_start_pos(b, lo + ws_len_at(b, lo, hi), hi)
    } else {
        lo
    }
}

/// End of `b[lo..hi]` once trailing whitespace is removed (`str::trim_end`).
pub open spec fn trim_end_pos(b: Seq<u8>, lo: int, hi: int) -> int
    decreases hi - lo,
{
    if lo < hi && ws_len_before(b, lo, hi) > 0 {
        trim_end_pos(b, lo, hi - ws_len_before(b, lo, hi))
    } else {
        hi
    }
}

/// The range `b[lo..hi]` covers once trimmed at both ends (`str::trim`).
pub open spec fn trim_range(b: Seq<u8>, lo: int, hi: int) -> (int, int) {
    let s = trim_start_pos(b, lo, hi);
    (s, trim_end_pos(b, s, hi))
}

pub proof fn lemma_trim_start_bounds(b: Seq<u8>, lo: int, hi: int)
    requires
        lo <= hi,
    ensures
        lo <= trim_start_pos(b, lo, hi) <= hi,
    decreases hi - lo,
{
    if lo < hi && ws_len_at(b, lo, hi) > 0 {
        lemma_trim_start_bounds(b, lo + ws_len_at(b, lo, hi), hi);
    }
}

pub proof fn lemma_trim_end_bounds(b: Seq<u8>, lo: int, hi: int)
    requires
        lo <= hi,
    ensures
        lo <= trim_end_pos(b, lo, hi) <= hi,
    decreases hi - lo,
{
    if lo < hi && ws_len_before(b, lo, hi) > 0 {
        lemma_trim_end_bounds(b, lo, hi - ws_len_before(b, lo, hi));
    }
}

pub proof fn lemma_trim_range_bounds(b: Seq<u8>, lo: int, hi: int)
    requires
        lo <= hi,
    ensures
        lo <= trim_range(b, lo, hi).0 <= trim_range(b, lo, hi).1 <= hi,
{
    lemma_trim_start_bounds(b, lo, hi);
    lemma_trim_end_bounds(b, trim_start_pos(b, lo, hi), hi);
}

/// Exec form of [`ws_len_at`].
pub fn ws_len_at_exec(b: &[u8], i: usize, hi: usize) -> (n: usize)
    requires
        hi <= b@.len(),
    ensures
        n as int == ws_len_at(b@, i as int, hi as int),
{
    if i < hi && ((9 <= b[i] && b[i] <= 13) || b[i] == 32) {
        1
    } else if i < hi && hi - i >= 2 && b[i] == 0xc2 && (b[i + 1] == 0x85 || b[i + 1] == 0xa0) {
        2
    } else if i < hi && hi - i >= 3 && is_ws3_exec(b[i], b[i + 1], b[i + 2]) {
        3
    } else {
        0
    }
}

fn is_ws3_exec(x: u8, y: u8, z: u8) -> (r: bool)
    ensures
        r == is_ws3(x, y, z),
{
    (x == 0xe1 && y == 0x9a && z == 0x80) || (x == 0xe2 && y == 0x80 && ((0x80 <= z && z <= 0x8a)
        || z == 0xa8 || z == 0xa9 || z == 0xaf)) || (x == 0xe2 && y == 0x81 && z == 0x9f) || (x
        == 0xe3 && y == 0x80 && z == 0x80)
}

/// Exec form of [`ws_len_before`].
pub fn ws_len_before_exec(b: &[u8], lo: usize, j: usize) -> (n: usize)
    requires
        j <= b@.len(),
    ensures
        n as int == ws_len_before(b@, lo as int, j as int),
{
    if lo < j && ((9 <= b[j - 1] && b[j - 1] <= 13) || b[j - 1] == 32) {
        1
    } else if lo < j && j - lo >= 2 && b[j - 2] == 0xc2 && (b[j - 1] == 0x85 || b[j - 1] == 0xa0) {
        2
    } else if lo < j && j - lo >= 3 && is_ws3_exec(b[j - 3], b[j - 2], b[j - 1]) {
        3
    } else {
        0
    }
}

/// Exec form of [`trim_start_pos`].
pub fn trim_start_exec(b: &[u8], lo: usize, hi: usize) -> (r: usize)
    requires
        lo <= hi <= b@.len(),
    ensures
        r as int == trim_start_pos(b@, lo as int, hi as int),
        lo <= r <= hi,
{
    let mut i = lo;
    while i < hi
        invariant
            lo <= i <= hi <= b@.len(),
            trim_start_pos(b@, i as int, hi as int) == trim_start_pos(b@, lo as int, hi as int),
        decreases hi - i,
    {
        let n = ws_len_at_exec(b, i, hi);
        if n == 0 {
            return i;
        }
        i = i + n;
    }
    i
}

/// Exec form of [`trim_end_pos`].
pub fn trim_end_exec(b: &[u8], lo: usize, hi: usize) -> (r: usize)
    requires
        lo <= hi <= b@.len(),
    ensures
        r as int == trim_end_pos(b@, lo as int, hi as int),
        lo <= r <= hi,
{
    let mut j = hi;
    while lo < j
        invariant
            lo <= j <= hi <= b@.len(),
            trim_end_pos(b@, lo as int, j as int) == trim_end_pos(b@, lo as int, hi as int),
        decreases j - lo,
    {
        let n = ws_len_before_exec(b, lo, j);
        if n == 0 {
            return j;
        }
        j = j - n;
    }
    j
}

/// Exec form of [`trim_range`].
pub fn trim_exec(b: &[u8], lo: usize, hi: usize) -> (r: (usize, usize))
    requires
        lo <= hi <= b@.len(),
    ensures
        (r.0 as int, r.1 as int) == trim_range(b@, lo as int, hi as int),
        lo <= r.0 <= r.1 <= hi,
{
    let s = trim_start_exec(b, lo, hi);
    let e = trim_end_exec(b, s, hi);
    (s, e)
}

/// A whitespace character found by [`ws_len_at`] is a whole UTF-8 character:
/// when it starts on a character boundary, it also ends on one.
pub proof fn lemma_ws_char_ends_on_boundary(b: Seq<u8>, i: int, hi: int)
    requires
        valid_utf8(b),
        is_char_boundary(b, i),
        ws_len_at(b, i, hi) > 0,
    ensures
        is_char_boundary(b, i + ws_len_at(b, i, hi)),
{
    let k = ws_len_at(b, i, hi);
    let n = b.len() as int;
    valid_utf8_split(b, i);
    let rest = b.subrange(i, n);
    assert(rest.len() > 0);
    assert(valid_first_scalar(rest) && valid_utf8(pop_first_scalar(rest)));
    assert(rest[0] == b[i]);
    assert(length_of_first_scalar(rest) == k);
    let pop = pop_first_scalar(rest);
    assert(pop =~= b.subrange(i + k, n));
    if i + k == n {
        is_char_boundary_start_end_of_seq(b);
    } else {
        assert(pop.len() > 0);
        assert(is_char_boundary(pop, 0));
        is_char_boundary_iff_not_is_continuation_byte(pop, 0);
        assert(pop[0] == b[i + k]);
        is_char_boundary_iff_not_is_continuation_byte(b, i + k);
    }
}

/// A whitespace character found by [`ws_len_before`] starts on a character
/// boundary.
pub proof fn lemma_ws_char_starts_on_boundary(b: Seq<u8>, lo: int, j: int)
    requires
        valid_utf8(b),
        ws_len_before(b, lo, j) > 0,
    ensures
        is_char_boundary(b, j - ws_len_before(b, lo, j)),
{
    let k = ws_len_before(b, lo, j);
    is_char_boundary_iff_not_is_continuation_byte(b, j - k);
}

/// Trimming leading whitespace from a character boundary stops on one.
pub proof fn lemma_trim_start_boundary(b: Seq<u8>, lo: int, hi: int)
    requires
        valid_utf8(b),
        is_char_boundary(b, lo),
    ensures
        is_char_boundary(b, trim_start_pos(b, lo, hi)),
    decreases hi - lo,
{
    if lo < hi && ws_len_at(b, lo, hi) > 0 {
        lemma_ws_char_ends_on_boundary(b, lo, hi);
        lemma_trim_start_boundary(b, lo + ws_len_at(b, lo, hi), hi);
    }
}

/// Trimming trailing whitespace from a character boundary stops on one.
pub proof fn lemma_trim_end_boundary(b: Seq<u8>, lo: int, hi: int)
    requires
        valid_utf8(b),
        is_char_boundary(b, hi),
    ensures
        is_char_boundary(b, trim_end_pos(b, lo, hi)),
    decreases hi - lo,
{
    if lo < hi && ws_len_before(b, lo, hi) > 0 {
        lemma_ws_char_starts_on_boundary(b, lo, hi);
        lemma_trim_end_boundary(b, lo, hi - ws_len_before(b, lo, hi));
    }
}

/// Both ends of a trimmed character-boundary range are character boundaries.
pub proof fn lemma_trim_range_boundary(b: Seq<u8>, lo: int, hi: int)
    requires
        valid_utf8(b),
        is_char_boundary(b, lo),
        is_char_boundary(b, hi),
    ensures
        is_char_boundary(b, trim_range(b, lo, hi).0),
        is_char_boundary(b, trim_range(b, lo, hi).1),
{
    lemma_trim_start_boundary(b, lo, hi);
    lemma_trim_end_boundary(b, trim_start_pos(b, lo, hi), hi);
}

/// A position holding an ASCII byte, or the end of the text, is a
/// character boundary.
pub proof fn lemma_ascii_is_boundary(b: Seq<u8>, i: int)
    requires
        valid_utf8(b),
        0 <= i <= b.len(),
        i < b.len() ==> b[i] < 0x80,
    ensures
        is_char_boundary(b, i),
{
    if i == b.len() {
        is_char_boundary_start_end_of_seq(b);
    } else {
        is_char_boundary_iff_not_is_continuation_byte(b, i);
    }
}

/// A boundary of a valid byte sequence stays a boundary of any prefix that
/// contains it.
pub proof fn lemma_boundary_in_prefix(b: Seq<u8>, a: int, e: int)
    requires
        valid_utf8(b),
        is_char_boundary(b, a),
        is_char_boundary(b, e),
        0 <= a <= e <= b.len(),
    ensures
        valid_utf8(b.subrange(0, e)),
        is_char_boundary(b.subrange(0, e), a),
{
    valid_utf8_split(b, e);
    let h = b.subrange(0, e);
    if a == e {
        is_char_boundary_start_end_of_seq(h);
    } else {
        is_char_boundary_iff_not_is_continuation_byte(b, a);
        is_char_boundary_iff_not_is_continuation_byte(h, a);
    }
}

/// The slice of `s` between byte offsets `a` and `b`, both on character
/// boundaries.
pub fn substr(s: &str, a: usize, b: usize) -> (r: &str)
    requires
        a <= b <= s.spec_bytes().len(),
        is_char_boundary(s.spec_bytes(), a as int),
        is_char_boundary(s.spec_bytes(), b as int),
    ensures
        r.spec_bytes() == s.spec_bytes().subrange(a as int, b as int),
{
    proof {
        encode_utf8_valid_utf8(s@);
        lemma_boundary_in_prefix(s.spec_bytes(), a as int, b as int);
    }
    let (head, _) = s.split_at(b);
    proof {
        assert(head.spec_bytes() =~= s.spec_bytes().subrange(0, b as int));
    }
    let (_, mid) = head.split_at(a);
    proof {
        assert(mid.spec_bytes() =~= s.spec_bytes().subrange(a as int, b as int));
    }
    mid
}

/// `` ` ``
pub const BACKTICK: u8 = 96;

/// ASCII lower-casing of one byte (`u8::to_ascii_lowercase`).
pub open spec fn ascii_lower(x: u8) -> u8 {
    if 65 <= x && x <= 90 {
        (x + 32) as u8
    } else {
        x
    }
}

/// `s` and `t` are equal up to ASCII case (`str::eq_ignore_ascii_case`).
pub open spec fn eq_ignore_ascii_case(s: Seq<u8>, t: Seq<u8>) -> bool {
    s.len() == t.len() && forall|i: int| 0 <= i < s.len() ==> ascii_lower(s[i]) == ascii_lower(t[i])
}

pub fn ascii_lower_exec(x: u8) -> (r: u8)
    ensures
        r == ascii_lower(x),
{
    if 65 <= x && x <= 90 {
        x + 32
    } else {
        x
    }
}

/// Whether `b[lo..hi]` equals `t` up to ASCII case.
pub fn range_eq_ignore_ascii_case(b: &[u8], lo: usize, hi: usize, t: &[u8]) -> (r: bool)
    requires
        lo <= hi <= b@.len(),
    ensures
        r == eq_ignore_ascii_case(b@.subrange(lo as int, hi as int), t@),
{
    if hi - lo != t.len() {
        return false;
    }
    let mut k: usize = 0;
    while k < t.len()
        invariant
            lo <= hi <= b@.len(),
            hi - lo == t@.len(),
            k <= t@.len(),
            forall|i: int| 0 <= i < k ==> ascii_lower(b@[lo + i]) == ascii_lower(t@[i]),
        decreases t@.len() - k,
    {
        if ascii_lower_exec(b[lo + k]) != ascii_lower_exec(t[k]) {
            assert(ascii_lower(b@.subrange(lo as int, hi as int)[k as int]) != ascii_lower(t@[k as int]));
            return false;
        }
        k = k + 1;
    }
    assert forall|i: int| 0 <= i < t@.len() implies ascii_lower(b@.subrange(lo as int, hi as int)[i])
        == ascii_lower(t@[i]) by {
        assert(b@.subrange(lo as int, hi as int)[i] == b@[lo + i]);
    }
    true
}

/// Whether `b[i..]` starts with `` ``` `` within `b[..hi]`.
pub open spec fn triple_backtick_at(b: Seq<u8>, i: int, hi: int) -> bool {
    0 <= i && i + 3 <= hi && hi <= b.len() && b[i] == BACKTICK && b[i + 1] == BACKTICK && b[i + 2]
        == BACKTICK
}

pub fn triple_backtick_at_exec(b: &[u8], i: usize, hi: usize) -> (r: bool)
    requires
        hi <= b@.len(),
    ensures
        r == triple_backtick_at(b@, i as int, hi as int),
{
    i < hi && hi - i >= 3 && b[i] == BACKTICK && b[i + 1] == BACKTICK && b[i + 2] == BACKTICK
}

/// The byte after an ASCII byte of a valid UTF-8 sequence starts a
/// character (or is the end of the text).
pub proof fn lemma_after_ascii_is_boundary(b: Seq<u8>, i: int)
    requires
        valid_utf8(b),
        0 <= i < b.len(),
        b[i] < 0x80,
    ensures
        is_char_boundary(b, i + 1),
{
    let n = b.len() as int;
    lemma_ascii_is_boundary(b, i);
    valid_utf8_split(b, i);
    let rest = b.subrange(i, n);
    assert(rest[0] == b[i]);
    assert(valid_first_scalar(rest) && valid_utf8(pop_first_scalar(rest)));
    assert(length_of_first_scalar(rest) == 1);
    let pop = pop_first_scalar(rest);
    assert(pop =~= b.subrange(i + 1, n));
    if i + 1 == n {
        is_char_boundary_start_end_of_seq(b);
    } else {
        assert(is_char_boundary(pop, 0));
        is_char_boundary_iff_not_is_continuation_byte(pop, 0);
        assert(pop[0] == b[i + 1]);
        is_char_boundary_iff_not_is_continuation_byte(b, i + 1);
    }
}

/// The first position at or after `j` holding `x` or `y`, or the end of `b`.
pub open spec fn first_of_from(b: Seq<u8>, j: int, x: u8, y: u8) -> int
    decreases b.len() - j,
{
    if j < 0 || j >= b.len() {
        b.len() as int
    } else if b[j] == x || b[j] == y {
        j
    } else {
        first_of_from(b, j + 1, x, y)
    }
}

pub proof fn lemma_first_of_from(b: Seq<u8>, j: int, x: u8, y: u8)
    requires
        0 <= j <= b.len(),
    ensures
        j <= first_of_from(b, j, x, y) <= b.len(),
        first_of_from(b, j, x, y) < b.len() ==> (b[first_of_from(b, j, x, y)] == x || b[first_of_from(
            b,
            j,
            x,
            y,
        )] == y),
        forall|k: int| j <= k < first_of_from(b, j, x, y) ==> b[k] != x && b[k] != y,
    decreases b.len() - j,
{
    if j < b.len() && b[j] != x && b[j] != y {
        lemma_first_of_from(b, j + 1, x, y);
    }
}

/// Exec form of [`first_of_from`].
pub fn first_of_exec(b: &[u8], j: usize, x: u8, y: u8) -> (r: usize)
    requires
        j <= b@.len(),
    ensures
        r as int == first_of_from(b@, j as int, x, y),
{
    let mut k = j;
    while k < b.len()
        invariant
            j <= k <= b@.len(),
            first_of_from(b@, k as int, x, y) == first_of_from(b@, j as int, x, y),
        decreases b@.len() - k,
    {
        if b[k] == x || b[k] == y {
            return k;
        }
        k = k + 1;
    }
    k
}

/// `b[lo..hi]` holds the byte `x`.
pub open spec fn contains_byte(b: Seq<u8>, lo: int, hi: int, x: u8) -> bool {
    exists|k: int| lo <= k < hi && b[k] == x
}

/// Exec form of [`contains_byte`].
pub fn contains_byte_exec(b: &[u8], lo: usize, hi: usize, x: u8) -> (r: bool)
    requires
        hi <= b@.len(),
    ensures
        r == contains_byte(b@, lo as int, hi as int, x),
{
    let mut k = lo;
    while k < hi
        invariant
            lo <= k,
            hi <= b@.len(),
            forall|m: int| lo <= m < k ==> b@[m] != x,
        decreases hi - k,
    {
        if b[k] == x {
            return true;
        }
        k = k + 1;
    }
    false
}

/// `b[lo..]` starts with `pat` (exact bytes) within `b[..hi]`.
pub open spec fn starts_with_at(b: Seq<u8>, lo: int, hi: int, pat: Seq<u8>) -> bool {
    0 <= lo && lo + pat.len() <= hi && hi <= b.len() && b.subrange(lo, lo + pat.len()) == pat
}

/// Exec form of [`starts_with_at`].
pub fn starts_with_at_exec(b: &[u8], lo: usize, hi: usize, pat: &[u8]) -> (r: bool)
    requires
        hi <= b@.len(),
    ensures
        r == starts_with_at(b@, lo as int, hi as int, pat@),
{
    if lo > hi || hi - lo < pat.len() {
        return false;
    }
    let mut k: usize = 0;
    while k < pat.len()
        invariant
            lo + pat@.len() <= hi <= b@.len(),
            k <= pat@.len(),
            forall|m: int| 0 <= m < k ==> b@[lo + m] == pat@[m],
        decreases pat@.len() - k,
    {
        if b[lo + k] != pat[k] {
            assert(b@.subrange(lo as int, lo + pat@.len())[k as int] != pat@[k as int]);
            return false;
        }
        k = k + 1;
    }
    assert(b@.subrange(lo as int, lo + pat@.len()) =~= pat@);
    true
}

} // verus!
