//! Autocomplete framework: the pluggable [`CompletionSource`] trait, the
//! [`CompletionItem`] the popup displays, the shared ranking core [`rank`],
//! and the [`CompletionState`] the view tracks while the popup is open.
//!
//! Ranking lower-cases the query and every candidate text with
//! `str::to_lowercase` (the Unicode mapping of std), then scores the lowered
//! bytes. The scoring and ordering are verified; what the Unicode mapping
//! returns is named, not restated ([`lowercase_of`]).

use vstd::prelude::*;
use vstd::string::*;
use vstd::utf8::*;

use crate::decoration::copy_range;
use crate::document::EditorState;

verus! {

broadcast use vstd::seq::group_seq_axioms;

/// A single completion candidate produced by a [`CompletionSource`].
#[derive(Debug)]
pub struct CompletionItem {
    /// Text shown in the popup list (the "label").
    pub label: String,
    /// Optional secondary text shown next to the label (signature, type, etc.).
    pub detail: Option<String>,
    /// Text to insert when the user commits this item.
    pub insert: String,
    /// Optional explicit replace range. If `None`, the source asks the host
    /// to replace the trailing word at the cursor.
    pub replace_range: Option<std::ops::Range<usize>>,
    /// Hint for icon / sort ordering.
    pub kind: CompletionKind,
}

impl Clone for CompletionItem {
    fn clone(&self) -> (c: CompletionItem)
        ensures
            c == *self,
    {
        CompletionItem {
            label: self.label.clone(),
            detail: match &self.detail {
                Some(d) => Some(d.clone()),
                None => None,
            },
            insert: self.insert.clone(),
            replace_range: match &self.replace_range {
                Some(r) => Some(copy_range(r)),
                None => None,
            },
            kind: self.kind,
        }
    }
}

/// Kind of a completion item.
#[derive(Clone, Copy, Debug, PartialEq, Eq, Structural)]
pub enum CompletionKind {
    Snippet,
    Variable,
    Function,
    Keyword,
    Wikilink,
    Text,
}

/// A pluggable source of completion candidates, queried each time a trigger
/// character is typed (or the user requests completion explicitly).
pub trait CompletionSource: Send + Sync {
    /// Characters that should auto-open the popup when typed. The default
    /// empty slice means the source is only invoked explicitly.
    fn triggers(&self) -> (t: &[char])
        default_ensures
            t@.len() == 0,
    {
        &[]
    }

    /// All candidates this source produces for `state` with the caret at
    /// byte offset `pos`. Sources filter against the current query
    /// themselves.
    fn matches(&self, state: &EditorState, pos: usize) -> Vec<CompletionItem>;

    /// Cheap predicate: would this source produce completions at `pos` even
    /// though no trigger char was just typed? Default `false`.
    fn reopens_in_context(&self, state: &EditorState, pos: usize) -> (r: bool)
        default_ensures
            !r,
    {
        false
    }
}

/// A candidate offered to the ranking core: the item that lands if chosen,
/// the `label` it is scored by, and an optional `basename` (the final
/// `/`-segment) weighted above the folder prefix.
#[derive(Debug)]
pub struct RankCandidate {
    /// Full text scored at base weight (e.g. the relative vault path).
    pub label: String,
    /// Basename scored at a boosted weight; `None` to score `label` only.
    pub basename: Option<String>,
    /// The item committed when this candidate is chosen.
    pub item: CompletionItem,
}

/// A source of ranked candidates with no buffer coupling.
pub trait CandidateSource {
    /// Up to `limit` ranked items for `query` (case-insensitive subsequence
    /// match, basename-aware).
    fn candidates(&self, query: &str, limit: usize) -> Vec<CompletionItem>;
}

/// What `str::to_lowercase` returns for a string with characters `s`: the
/// Unicode lower-case mapping of std, a function of the characters alone.
pub uninterp spec fn lowercase_of(s: Seq<char>) -> Seq<char>;

/// `str::to_lowercase`: the contract claims only that the result is
/// [`lowercase_of`] of the characters of `s`, the same for the same input;
/// what the Unicode mapping does to each character is left unsaid.
#[verifier::external_body]
fn lowercase(s: &str) -> (r: String)
    ensures
        r@ == lowercase_of(s@),
{
    s.to_lowercase()
}

/// Extra weight applied to a basename match so it outranks an equally
/// strong folder-prefix match on the same path.
pub const BASENAME_BOOST: i64 = 1000;

/// Bytes that delimit a word or path segment: `/`, space, `-`, `_`, `.`.
pub open spec fn spec_is_boundary_byte(x: u8) -> bool {
    x == 47 || x == 32 || x == 45 || x == 95 || x == 46
}

/// `true` for bytes that delimit a word or path segment, so a match landing
/// just after one counts as boundary-aligned.
pub fn is_boundary_byte(x: u8) -> (r: bool)
    ensures
        r == spec_is_boundary_byte(x),
{
    x == 47 || x == 32 || x == 45 || x == 95 || x == 46
}

/// `n` occurs in `t` at byte `at`.
pub open spec fn occurs_at(t: Seq<u8>, n: Seq<u8>, at: int) -> bool {
    0 <= at && at + n.len() <= t.len() && t.subrange(at, at + n.len()) == n
}

/// The first occurrence of `n` in `t` at or after `from`, or -1.
pub open spec fn first_occurrence(t: Seq<u8>, n: Seq<u8>, from: int) -> int
    decreases t.len() + 1 - from,
{
    if from < 0 || from + n.len() > t.len() {
        -1
    } else if occurs_at(t, n, from) {
        from
    } else {
        first_occurrence(t, n, from + 1)
    }
}

/// Greedy subsequence match of `n[ni..]` in `t[idx..]`: `None` when it does
/// not match, else the number of matched bytes that follow a boundary byte
/// (or start `t`), added to `hits`.
pub open spec fn subseq_hits(t: Seq<u8>, n: Seq<u8>, idx: int, ni: int, hits: int) -> Option<int>
    decreases t.len() - idx,
{
    if ni >= n.len() {
        Some(hits)
    } else if idx < 0 || idx >= t.len() {
        None
    } else if t[idx] == n[ni] {
        subseq_hits(
            t,
            n,
            idx + 1,
            ni + 1,
            hits + if idx == 0 || spec_is_boundary_byte(t[idx - 1]) {
                1int
            } else {
                0
            },
        )
    } else {
        subseq_hits(t, n, idx + 1, ni, hits)
    }
}

/// `x` capped at `i64::MAX`.
pub open spec fn cap_i64(x: int) -> int {
    if x <= i64::MAX {
        x
    } else {
        i64::MAX as int
    }
}

/// Score of a lowercased `text` against a lowercased `needle`: 1 for an
/// empty needle; 10000 for an exact match; 5000 for a prefix; for a
/// contiguous occurrence 3000 when its first one starts on a word/segment
/// boundary, else 2000; for a scattered subsequence 100 plus the number of
/// boundary-aligned matched bytes; 0 when `needle` is no subsequence.
pub open spec fn score_text_spec(t: Seq<u8>, n: Seq<u8>) -> int {
    if n.len() == 0 {
        1
    } else if t == n {
        10_000
    } else if n.len() <= t.len() && t.subrange(0, n.len() as int) == n {
        5_000
    } else if first_occurrence(t, n, 0) >= 0 {
        let at = first_occurrence(t, n, 0);
        if at == 0 || spec_is_boundary_byte(t[at - 1]) {
            3_000
        } else {
            2_000
        }
    } else {
        match subseq_hits(t, n, 0, 0, 0) {
            Some(h) => cap_i64(100 + h),
            None => 0,
        }
    }
}

proof fn lemma_subseq_hits_bound(t: Seq<u8>, n: Seq<u8>, idx: int, ni: int, hits: int)
    requires
        0 <= idx,
        0 <= hits,
    ensures
        subseq_hits(t, n, idx, ni, hits) matches Some(h) ==> hits <= h <= hits + (if t.len() > idx {
            t.len() - idx
        } else {
            0
        }),
    decreases t.len() - idx,
{
    if ni < n.len() && idx < t.len() {
        if t[idx] == n[ni] {
            lemma_subseq_hits_bound(
                t,
                n,
                idx + 1,
                ni + 1,
                hits + if idx == 0 || spec_is_boundary_byte(t[idx - 1]) {
                    1int
                } else {
                    0
                },
            );
        } else {
            lemma_subseq_hits_bound(t, n, idx + 1, ni, hits);
        }
    }
}

/// If `needle` is a subsequence of `text`, how many of its matched bytes
/// landed on a word/segment boundary; `None` when it is not a subsequence.
pub fn subsequence_score(text: &str, needle: &str) -> (r: Option<usize>)
    ensures
        r is None <==> subseq_hits(text.spec_bytes(), needle.spec_bytes(), 0, 0, 0) is None,
        r matches Some(h) ==> subseq_hits(text.spec_bytes(), needle.spec_bytes(), 0, 0, 0) == Some(
            h as int,
        ),
{
    let t = text.as_bytes();
    let n = needle.as_bytes();
    let mut ni: usize = 0;
    let mut hits: usize = 0;
    let mut idx: usize = 0;
    while idx < t.len() && ni < n.len()
        invariant
            t@ == text.spec_bytes(),
            n@ == needle.spec_bytes(),
            idx <= t@.len(),
            ni <= n@.len(),
            hits <= idx,
            subseq_hits(t@, n@, idx as int, ni as int, hits as int) == subseq_hits(t@, n@, 0, 0, 0),
        decreases t@.len() - idx,
    {
        if t[idx] == n[ni] {
            if idx == 0 || is_boundary_byte(t[idx - 1]) {
                hits = hits + 1;
            }
            ni = ni + 1;
        }
        idx = idx + 1;
    }
    if ni >= n.len() {
        Some(hits)
    } else {
        None
    }
}

/// Whether `b[at..]` starts with `n`.
fn occurs_at_exec(t: &[u8], n: &[u8], at: usize) -> (r: bool)
    ensures
        r == occurs_at(t@, n@, at as int),
{
    let tl = t.len();
    if at > tl || tl - at < n.len() {
        return false;
    }
    let mut k: usize = 0;
    while k < n.len()
        invariant
            tl == t@.len(),
            at + n@.len() <= t@.len(),
            k <= n@.len(),
            forall|m: int| 0 <= m < k ==> t@[at + m] == n@[m],
        decreases n@.len() - k,
    {
        if t[at + k] != n[k] {
            assert(t@.subrange(at as int, at + n@.len())[k as int] != n@[k as int]);
            return false;
        }
        k = k + 1;
    }
    assert(t@.subrange(at as int, at + n@.len()) =~= n@);
    true
}

/// The first occurrence of `n` in `t`, or `None` (`str::find`).
fn find_bytes(t: &[u8], n: &[u8]) -> (r: Option<usize>)
    ensures
        r is None <==> first_occurrence(t@, n@, 0) == -1,
        r matches Some(at) ==> first_occurrence(t@, n@, 0) == at as int && at + n@.len() <= t@.len(),
{
    let tl = t.len();
    let mut at: usize = 0;
    while at <= tl && tl - at >= n.len()
        invariant
            tl == t@.len(),
            first_occurrence(t@, n@, at as int) == first_occurrence(t@, n@, 0),
        decreases t@.len() + 1 - at,
    {
        if n.len() == 0 {
            assert(t@.subrange(at as int, at as int) =~= n@);
        }
        if occurs_at_exec(t, n, at) {
            return Some(at);
        }
        at = at + 1;
    }
    None
}

/// Score one lowercased `text` against a lowercased `needle`; `0` means no
/// match, larger is better (see [`score_text_spec`]).
pub fn score_text(text: &str, needle: &str) -> (r: i64)
    ensures
        r as int == score_text_spec(text.spec_bytes(), needle.spec_bytes()),
{
    let t = text.as_bytes();
    let n = needle.as_bytes();
    if n.len() == 0 {
        return 1;
    }
    if t.len() == n.len() && occurs_at_exec(t, n, 0) {
        proof {
            assert(t@ =~= t@.subrange(0, n@.len() as int));
        }
        return 10_000;
    }
    proof {
        if t@ == n@ {
            assert(t@.subrange(0, n@.len() as int) =~= t@);
        }
    }
    if occurs_at_exec(t, n, 0) {
        return 5_000;
    }
    match find_bytes(t, n) {
        Some(at) => {
            let boundary = at == 0 || is_boundary_byte(t[at - 1]);
            if boundary {
                3_000
            } else {
                2_000
            }
        },
        None => {
            proof {
                lemma_subseq_hits_bound(t@, n@, 0, 0, 0);
            }
            match subsequence_score(text, needle) {
                Some(h) => {
                    let hu = h as u64;
                    if hu <= 9_223_372_036_854_775_707u64 {
                        100 + hu as i64
                    } else {
                        i64::MAX
                    }
                },
                None => 0,
            }
        },
    }
}

/// Lexicographic byte order of `a[i..]` before `b[i..]` (the order of
/// `str`): the first differing byte decides, and a proper prefix comes first.
pub open spec fn lex_lt_from(a: Seq<u8>, b: Seq<u8>, i: int) -> bool
    decreases a.len() - i,
{
    if i < 0 {
        false
    } else if i >= a.len() {
        i < b.len()
    } else if i >= b.len() {
        false
    } else if a[i] < b[i] {
        true
    } else if a[i] > b[i] {
        false
    } else {
        lex_lt_from(a, b, i + 1)
    }
}

/// `a` comes before `b` in lexicographic byte order.
pub open spec fn lex_lt(a: Seq<u8>, b: Seq<u8>) -> bool {
    lex_lt_from(a, b, 0)
}

proof fn lemma_lex_irrefl(a: Seq<u8>, i: int)
    ensures
        !lex_lt_from(a, a, i),
    decreases a.len() - i,
{
    if 0 <= i < a.len() {
        lemma_lex_irrefl(a, i + 1);
    }
}

proof fn lemma_lex_trans(a: Seq<u8>, b: Seq<u8>, c: Seq<u8>, i: int)
    requires
        lex_lt_from(a, b, i),
        lex_lt_from(b, c, i),
    ensures
        lex_lt_from(a, c, i),
    decreases a.len() - i,
{
    if 0 <= i < a.len() && i < b.len() && i < c.len() && a[i] == b[i] && b[i] == c[i] {
        lemma_lex_trans(a, b, c, i + 1);
    }
}

proof fn lemma_lex_total(a: Seq<u8>, b: Seq<u8>, i: int)
    requires
        0 <= i <= a.len(),
        i <= b.len(),
    ensures
        lex_lt_from(a, b, i) || lex_lt_from(b, a, i) || (a.len() == b.len() && forall|k: int|
            i <= k < a.len() ==> a[k] == b[k]),
    decreases a.len() - i,
{
    if i < a.len() && i < b.len() && a[i] == b[i] {
        lemma_lex_total(a, b, i + 1);
    }
}

/// Exec form of [`lex_lt`].
fn lex_lt_exec(a: &[u8], b: &[u8]) -> (r: bool)
    ensures
        r == lex_lt(a@, b@),
{
    let mut i: usize = 0;
    while i < a.len() && i < b.len()
        invariant
            i <= a@.len(),
            i <= b@.len(),
            lex_lt_from(a@, b@, i as int) == lex_lt_from(a@, b@, 0),
        decreases a@.len() - i,
    {
        if a[i] < b[i] {
            return true;
        }
        if a[i] > b[i] {
            return false;
        }
        i = i + 1;
    }
    i < b.len()
}

/// Candidate `i` ranks before candidate `j`: a higher score first, then the
/// label earlier in byte order, then the earlier candidate.
pub open spec fn rank_before(scores: Seq<int>, labels: Seq<Seq<u8>>, i: int, j: int) -> bool {
    ||| scores[i] > scores[j]
    ||| (scores[i] == scores[j] && lex_lt(labels[i], labels[j]))
    ||| (scores[i] == scores[j] && labels[i] == labels[j] && i < j)
}

proof fn lemma_rank_before_trans(scores: Seq<int>, labels: Seq<Seq<u8>>, i: int, j: int, k: int)
    requires
        rank_before(scores, labels, i, j),
        rank_before(scores, labels, j, k),
    ensures
        rank_before(scores, labels, i, k),
{
    if scores[i] == scores[j] && scores[j] == scores[k] {
        if lex_lt(labels[i], labels[j]) && lex_lt(labels[j], labels[k]) {
            lemma_lex_trans(labels[i], labels[j], labels[k], 0);
        }
    }
}

proof fn lemma_rank_before_total(scores: Seq<int>, labels: Seq<Seq<u8>>, i: int, j: int)
    requires
        i != j,
    ensures
        rank_before(scores, labels, i, j) || rank_before(scores, labels, j, i),
{
    lemma_lex_total(labels[i], labels[j], 0);
    if !lex_lt(labels[i], labels[j]) && !lex_lt(labels[j], labels[i]) {
        assert(labels[i] =~= labels[j]);
    }
}

proof fn lemma_rank_before_asym(scores: Seq<int>, labels: Seq<Seq<u8>>, i: int, j: int)
    requires
        rank_before(scores, labels, i, j),
    ensures
        !rank_before(scores, labels, j, i),
{
    if rank_before(scores, labels, j, i) {
        lemma_rank_before_trans(scores, labels, i, j, i);
        lemma_lex_irrefl(labels[i], 0);
    }
}

/// `order` ranks the candidates `0..n` that `kept` keeps: it lists each of
/// them exactly once (and nothing else), best first by [`rank_before`].
pub open spec fn is_ranking(
    order: Seq<int>,
    scores: Seq<int>,
    labels: Seq<Seq<u8>>,
    kept: Seq<bool>,
    n: int,
) -> bool {
    &&& forall|k: int| 0 <= k < order.len() ==> 0 <= #[trigger] order[k] < n && kept[order[k]]
    &&& forall|a: int, c: int|
        0 <= a < c < order.len() ==> rank_before(scores, labels, #[trigger] order[a], #[trigger] order[c])
    &&& forall|x: int| 0 <= x < n && #[trigger] kept[x] ==> order.contains(x)
}

proof fn lemma_rank_before_irrefl(scores: Seq<int>, labels: Seq<Seq<u8>>, x: int)
    ensures
        !rank_before(scores, labels, x, x),
{
    lemma_lex_irrefl(labels[x], 0);
}

/// A ranking is unique: two rankings of the same candidates, scores and
/// labels are the same sequence, so the ranked list never reshuffles from
/// one call to the next.
pub proof fn lemma_ranking_unique(
    o1: Seq<int>,
    o2: Seq<int>,
    scores: Seq<int>,
    labels: Seq<Seq<u8>>,
    kept: Seq<bool>,
    n: int,
)
    requires
        is_ranking(o1, scores, labels, kept, n),
        is_ranking(o2, scores, labels, kept, n),
        kept.len() == n,
    ensures
        o1 == o2,
    decreases o1.len(),
{
    if o1.len() == 0 {
        if o2.len() > 0 {
            assert(kept[o2[0]]);
            assert(o1.contains(o2[0]));
        }
        assert(o1 =~= o2);
    } else {
        let x = o1[0];
        assert(kept[x]);
        assert(o2.contains(x));
        let p = choose|p: int| 0 <= p < o2.len() && o2[p] == x;
        let y = o2[0];
        assert(kept[y]);
        assert(o1.contains(y));
        let q = choose|q: int| 0 <= q < o1.len() && o1[q] == y;
        if p > 0 && q > 0 {
            assert(rank_before(scores, labels, y, x));
            assert(rank_before(scores, labels, x, y));
            lemma_rank_before_asym(scores, labels, x, y);
        }
        if p > 0 && q == 0 {
            assert(rank_before(scores, labels, o2[0], o2[p]));
            lemma_rank_before_irrefl(scores, labels, x);
        }
        if q > 0 && p == 0 {
            assert(rank_before(scores, labels, o1[0], o1[q]));
            lemma_rank_before_irrefl(scores, labels, y);
        }
        assert(x == y);
        let kept2 = kept.update(x, false);
        let r1 = o1.drop_first();
        let r2 = o2.drop_first();
        assert(is_ranking(r1, scores, labels, kept2, n)) by {
            assert forall|k: int| 0 <= k < r1.len() implies 0 <= #[trigger] r1[k] < n && kept2[r1[k]] by {
                assert(r1[k] == o1[k + 1]);
                assert(rank_before(scores, labels, o1[0], o1[k + 1]));
                if o1[k + 1] == x {
                    lemma_rank_before_irrefl(scores, labels, x);
                }
            }
            assert forall|a: int, c: int| 0 <= a < c < r1.len() implies rank_before(
                scores,
                labels,
                #[trigger] r1[a],
                #[trigger] r1[c],
            ) by {
                assert(r1[a] == o1[a + 1] && r1[c] == o1[c + 1]);
            }
            assert forall|z: int| 0 <= z < n && #[trigger] kept2[z] implies r1.contains(z) by {
                assert(kept[z] && z != x);
                let k = choose|k: int| 0 <= k < o1.len() && o1[k] == z;
                assert(k != 0);
                assert(r1[k - 1] == z);
            }
        }
        assert(is_ranking(r2, scores, labels, kept2, n)) by {
            assert forall|k: int| 0 <= k < r2.len() implies 0 <= #[trigger] r2[k] < n && kept2[r2[k]] by {
                assert(r2[k] == o2[k + 1]);
                assert(rank_before(scores, labels, o2[0], o2[k + 1]));
                if o2[k + 1] == x {
                    lemma_rank_before_irrefl(scores, labels, x);
                }
            }
            assert forall|a: int, c: int| 0 <= a < c < r2.len() implies rank_before(
                scores,
                labels,
                #[trigger] r2[a],
                #[trigger] r2[c],
            ) by {
                assert(r2[a] == o2[a + 1] && r2[c] == o2[c + 1]);
            }
            assert forall|z: int| 0 <= z < n && #[trigger] kept2[z] implies r2.contains(z) by {
                assert(kept[z] && z != x);
                let k = choose|k: int| 0 <= k < o2.len() && o2[k] == z;
                assert(k != 0);
                assert(r2[k - 1] == z);
            }
        }
        lemma_ranking_unique(r1, r2, scores, labels, kept2, n);
        assert(o1 =~= seq![x] + r1);
        assert(o2 =~= seq![x] + r2);
    }
}

/// `needle` is a subsequence of `t`: its bytes appear in `t` in order.
pub open spec fn is_subseq(t: Seq<u8>, needle: Seq<u8>) -> bool {
    subseq_hits(t, needle, 0, 0, 0) is Some
}

proof fn lemma_first_occurrence_occurs(t: Seq<u8>, n: Seq<u8>, from: int)
    ensures
        first_occurrence(t, n, from) >= 0 ==> first_occurrence(t, n, from) >= from && occurs_at(
            t,
            n,
            first_occurrence(t, n, from),
        ),
    decreases t.len() + 1 - from,
{
    if !(from < 0 || from + n.len() > t.len()) && !occurs_at(t, n, from) {
        lemma_first_occurrence_occurs(t, n, from + 1);
    }
}

/// A contiguous occurrence of `n[ni..]` at or after `idx` is found by the
/// greedy subsequence match.
proof fn lemma_occurrence_is_subseq(t: Seq<u8>, n: Seq<u8>, idx: int, ni: int, at: int, hits: int)
    requires
        0 <= idx <= at,
        0 <= ni <= n.len(),
        at + (n.len() - ni) <= t.len(),
        t.subrange(at, at + (n.len() - ni)) == n.subrange(ni, n.len() as int),
    ensures
        subseq_hits(t, n, idx, ni, hits) is Some,
    decreases t.len() - idx,
{
    if ni < n.len() {
        assert(t[at] == t.subrange(at, at + (n.len() - ni))[0]);
        assert(t.subrange(at + 1, at + 1 + (n.len() - (ni + 1))) =~= n.subrange(ni + 1, n.len() as int)) by {
            assert forall|k: int| 0 <= k < n.len() - (ni + 1) implies #[trigger] t.subrange(
                at + 1,
                at + 1 + (n.len() - (ni + 1)),
            )[k] == n.subrange(ni + 1, n.len() as int)[k] by {
                let len = n.len() - ni;
                let ts = t.subrange(at, at + len);
                let ns = n.subrange(ni, n.len() as int);
                assert(ts[k + 1] == ns[k + 1]);
                assert(ts[k + 1] == t[at + k + 1]);
                assert(ns[k + 1] == n[ni + k + 1]);
            }
        }
        let h2 = hits + if idx == 0 || spec_is_boundary_byte(t[idx - 1]) {
            1int
        } else {
            0
        };
        if t[idx] == n[ni] {
            lemma_occurrence_is_subseq(t, n, idx + 1, ni + 1, at + 1, h2);
        } else {
            assert(at != idx);
            lemma_occurrence_is_subseq(t, n, idx + 1, ni, at, hits);
        }
    }
}

/// For a non-empty needle a text scores above zero exactly when the needle
/// is a subsequence of it.
pub proof fn lemma_score_positive_iff_subseq(t: Seq<u8>, n: Seq<u8>)
    requires
        n.len() > 0,
    ensures
        score_text_spec(t, n) > 0 <==> is_subseq(t, n),
{
    lemma_subseq_hits_bound(t, n, 0, 0, 0);
    if t == n {
        assert(t.subrange(0, n.len() as int) =~= n.subrange(0, n.len() as int));
        lemma_occurrence_is_subseq(t, n, 0, 0, 0, 0);
    } else if n.len() <= t.len() && t.subrange(0, n.len() as int) == n {
        assert(n.subrange(0, n.len() as int) =~= n);
        lemma_occurrence_is_subseq(t, n, 0, 0, 0, 0);
    } else if first_occurrence(t, n, 0) >= 0 {
        let at = first_occurrence(t, n, 0);
        lemma_first_occurrence_occurs(t, n, 0);
        assert(n.subrange(0, n.len() as int) =~= n);
        lemma_occurrence_is_subseq(t, n, 0, 0, at, 0);
    }
}

/// A candidate stays in the ranked list for a non-empty query exactly when
/// the query is a subsequence of its lowered label or of its lowered
/// basename.
pub proof fn lemma_kept_iff_matches(labels_l: Seq<Seq<u8>>, bases_l: Seq<Option<Seq<u8>>>, needle: Seq<u8>, i: int)
    requires
        needle.len() > 0,
        labels_l.len() == bases_l.len(),
        0 <= i < labels_l.len(),
    ensures
        kept_of(scores_of(labels_l, bases_l, needle), needle)[i] <==> (is_subseq(labels_l[i], needle)
            || (bases_l[i] matches Some(bn) && is_subseq(bn, needle))),
{
    lemma_score_positive_iff_subseq(labels_l[i], needle);
    if let Some(bn) = bases_l[i] {
        lemma_score_positive_iff_subseq(bn, needle);
    }
}

/// With an empty query every candidate is kept at one equal score, so a
/// ranking lists every candidate, ordered by label and then by input order.
pub proof fn lemma_empty_query_keeps_all(
    order: Seq<int>,
    labels_l: Seq<Seq<u8>>,
    bases_l: Seq<Option<Seq<u8>>>,
    labels: Seq<Seq<u8>>,
    needle: Seq<u8>,
)
    requires
        needle.len() == 0,
        labels_l.len() == bases_l.len(),
        is_ranking(
            order,
            scores_of(labels_l, bases_l, needle),
            labels,
            kept_of(scores_of(labels_l, bases_l, needle), needle),
            labels_l.len() as int,
        ),
    ensures
        forall|i: int| 0 <= i < labels_l.len() ==> #[trigger] scores_of(labels_l, bases_l, needle)[i] == 0,
        forall|i: int| 0 <= i < labels_l.len() ==> order.contains(i),
        forall|a: int, c: int|
            0 <= a < c < order.len() ==> lex_lt(labels[#[trigger] order[a]], labels[#[trigger] order[c]]) || (
            labels[order[a]] == labels[order[c]] && order[a] < order[c]),
{
    let scores = scores_of(labels_l, bases_l, needle);
    assert forall|i: int| 0 <= i < labels_l.len() implies order.contains(i) by {
        assert(kept_of(scores, needle)[i]);
    }
    assert forall|a: int, c: int| 0 <= a < c < order.len() implies lex_lt(
        labels[#[trigger] order[a]],
        labels[#[trigger] order[c]],
    ) || (labels[order[a]] == labels[order[c]] && order[a] < order[c]) by {
        assert(rank_before(scores, labels, order[a], order[c]));
        assert(scores[order[a]] == 0 && scores[order[c]] == 0);
    }
}

/// The saturating `i64` sum of `a` and `b`.
pub open spec fn sat_add_i64(a: int, b: int) -> int {
    if a + b > i64::MAX {
        i64::MAX as int
    } else if a + b < i64::MIN {
        i64::MIN as int
    } else {
        a + b
    }
}

/// Score of a candidate from its lowered label and lowered basename: zero
/// for every candidate when the needle is empty, else the better of the label
/// score and, where the basename matches, the boosted basename score.
pub open spec fn cand_score_spec(label_l: Seq<u8>, base_l: Option<Seq<u8>>, needle: Seq<u8>) -> int {
    if needle.len() == 0 {
        0
    } else {
        let base = score_text_spec(label_l, needle);
        match base_l {
            Some(bn) => {
                let raw = score_text_spec(bn, needle);
                let boosted = if raw > 0 {
                    sat_add_i64(raw, BASENAME_BOOST as int)
                } else {
                    0
                };
                if base >= boosted {
                    base
                } else {
                    boosted
                }
            },
            None => base,
        }
    }
}

/// A candidate with score `score` stays in the list: every candidate stays
/// for an empty needle, else only positive scores.
pub open spec fn kept_spec(score: int, needle: Seq<u8>) -> bool {
    !(score <= 0 && needle.len() > 0)
}

/// The scores of candidates given, per candidate, the bytes of its lowered
/// label and of its lowered basename.
pub open spec fn scores_of(labels_l: Seq<Seq<u8>>, bases_l: Seq<Option<Seq<u8>>>, needle: Seq<u8>) -> Seq<
    int,
> {
    Seq::new(labels_l.len(), |i: int| cand_score_spec(labels_l[i], bases_l[i], needle))
}

/// The bytes of each string of `v`.
pub open spec fn bytes_of_strings(v: Seq<String>) -> Seq<Seq<u8>> {
    Seq::new(v.len(), |i: int| encode_utf8(v[i]@))
}

/// The bytes of each present string of `v`.
pub open spec fn bytes_of_opt_strings(v: Seq<Option<String>>) -> Seq<Option<Seq<u8>>> {
    Seq::new(
        v.len(),
        |i: int|
            match v[i] {
                Some(s) => Some(encode_utf8(s@)),
                None => None,
            },
    )
}

/// The tie-break labels of `cands`, as bytes.
pub open spec fn labels_of(cands: Seq<RankCandidate>) -> Seq<Seq<u8>> {
    Seq::new(cands.len(), |i: int| encode_utf8(cands[i].label@))
}

/// Which of `scores` stay in the list.
pub open spec fn kept_of(scores: Seq<int>, needle: Seq<u8>) -> Seq<bool> {
    Seq::new(scores.len(), |i: int| kept_spec(scores[i], needle))
}

/// `res` is the top `limit` items of a ranking of `cands`.
pub open spec fn ranked_result(
    res: Seq<CompletionItem>,
    cands: Seq<RankCandidate>,
    scores: Seq<int>,
    needle: Seq<u8>,
    limit: int,
) -> bool {
    exists|order: Seq<int>|
        {
            &&& is_ranking(order, scores, labels_of(cands), kept_of(scores, needle), cands.len() as int)
            &&& res.len() == if limit < order.len() {
                limit
            } else {
                order.len() as int
            }
            &&& forall|k: int| 0 <= k < res.len() ==> #[trigger] res[k] == cands[order[k]].item
        }
}

/// Where candidate `i` goes in the ranked list `order`: after every entry
/// that ranks before it, before the first that it ranks before.
fn insert_pos(
    candidates: &Vec<RankCandidate>,
    sc: &Vec<i64>,
    order: &Vec<usize>,
    i: usize,
    Ghost(scores): Ghost<Seq<int>>,
    Ghost(labels): Ghost<Seq<Seq<u8>>>,
) -> (p: usize)
    requires
        sc@.len() == candidates@.len(),
        scores.len() == candidates@.len(),
        forall|k: int| 0 <= k < sc@.len() ==> sc@[k] as int == #[trigger] scores[k],
        labels == labels_of(candidates@),
        i < candidates@.len(),
        forall|k: int| 0 <= k < order@.len() ==> 0 <= #[trigger] order@[k] < i,
    ensures
        p <= order@.len(),
        forall|k: int| 0 <= k < p ==> rank_before(scores, labels, #[trigger] order@[k] as int, i as int),
        p < order@.len() ==> rank_before(scores, labels, i as int, order@[p as int] as int),
{
    let li = candidates[i].label.as_str().as_bytes();
    let mut p: usize = 0;
    while p < order.len()
        invariant
            sc@.len() == candidates@.len(),
            scores.len() == candidates@.len(),
            forall|k: int| 0 <= k < sc@.len() ==> sc@[k] as int == #[trigger] scores[k],
            labels == labels_of(candidates@),
            li@ == labels[i as int],
            i < candidates@.len(),
            p <= order@.len(),
            forall|k: int| 0 <= k < order@.len() ==> 0 <= #[trigger] order@[k] < i,
            forall|k: int| 0 <= k < p ==> rank_before(scores, labels, #[trigger] order@[k] as int, i as int),
        decreases order@.len() - p,
    {
        let o = order[p];
        let lo = candidates[o].label.as_str().as_bytes();
        let lt_io = lex_lt_exec(li, lo);
        let lt_oi = lex_lt_exec(lo, li);
        let before = sc[i] > sc[o] || (sc[i] == sc[o] && (lt_io || (!lt_oi && i < o)));
        proof {
            assert(lo@ == labels[o as int]);
            lemma_lex_total(li@, lo@, 0);
            if !lex_lt(li@, lo@) && !lex_lt(lo@, li@) {
                assert(li@ =~= lo@);
            }
            if lex_lt(li@, lo@) || lex_lt(lo@, li@) {
                if li@ == lo@ {
                    lemma_lex_irrefl(li@, 0);
                }
            }
            assert(before == rank_before(scores, labels, i as int, o as int));
        }
        if before {
            return p;
        }
        proof {
            lemma_rank_before_total(scores, labels, i as int, o as int);
        }
        p = p + 1;
    }
    p
}

/// Rank `candidates` given the lowered query `needle` and, per candidate,
/// its lowered label and lowered basename, and return the top `limit`
/// items. Every candidate scores zero and stays when the needle is empty;
/// otherwise those whose score is not positive are dropped. The rest come by
/// descending score, then ascending label, then their input order.
pub fn rank_lowered(
    needle: &str,
    labels_l: &Vec<String>,
    bases_l: &Vec<Option<String>>,
    candidates: &Vec<RankCandidate>,
    limit: usize,
) -> (res: Vec<CompletionItem>)
    requires
        labels_l@.len() == candidates@.len(),
        bases_l@.len() == candidates@.len(),
    ensures
        ranked_result(
            res@,
            candidates@,
            scores_of(bytes_of_strings(labels_l@), bytes_of_opt_strings(bases_l@), needle.spec_bytes()),
            needle.spec_bytes(),
            limit as int,
        ),
{
    let n = candidates.len();
    let ghost nb = needle.spec_bytes();
    let ghost scores = scores_of(bytes_of_strings(labels_l@), bytes_of_opt_strings(bases_l@), nb);
    let ghost labels = labels_of(candidates@);
    let ghost kept = kept_of(scores, nb);
    let empty_needle = needle.as_bytes().len() == 0;
    let mut sc: Vec<i64> = Vec::new();
    let mut i: usize = 0;
    while i < n
        invariant
            n == candidates@.len(),
            labels_l@.len() == n,
            bases_l@.len() == n,
            nb == needle.spec_bytes(),
            empty_needle == (nb.len() == 0),
            scores == scores_of(bytes_of_strings(labels_l@), bytes_of_opt_strings(bases_l@), nb),
            i <= n,
            sc@.len() == i,
            forall|k: int| 0 <= k < i ==> sc@[k] as int == #[trigger] scores[k],
        decreases n - i,
    {
        let score = if empty_needle {
            0
        } else {
            let base = score_text(labels_l[i].as_str(), needle);
            match &bases_l[i] {
                Some(bn) => {
                    let raw = score_text(bn.as_str(), needle);
                    let bs = if raw <= 0 {
                        0
                    } else if raw > i64::MAX - BASENAME_BOOST {
                        i64::MAX
                    } else {
                        raw + BASENAME_BOOST
                    };
                    if base >= bs {
                        base
                    } else {
                        bs
                    }
                },
                None => base,
            }
        };
        sc.push(score);
        i = i + 1;
    }
    let mut order: Vec<usize> = Vec::new();
    let mut i: usize = 0;
    while i < n
        invariant
            n == candidates@.len(),
            sc@.len() == n,
            forall|k: int| 0 <= k < n ==> sc@[k] as int == #[trigger] scores[k],
            scores.len() == n,
            labels == labels_of(candidates@),
            kept == kept_of(scores, nb),
            empty_needle == (nb.len() == 0),
            i <= n,
            forall|k: int| 0 <= k < order@.len() ==> 0 <= #[trigger] order@[k] < i && kept[order@[k] as int],
            forall|a: int, c: int|
                0 <= a < c < order@.len() ==> rank_before(
                    scores,
                    labels,
                    #[trigger] order@[a] as int,
                    #[trigger] order@[c] as int,
                ),
            forall|x: int| 0 <= x < i && #[trigger] kept[x] ==> order@.contains(x as usize),
        decreases n - i,
    {
        if !(sc[i] <= 0 && !empty_needle) {
            let p = insert_pos(candidates, &sc, &order, i, Ghost(scores), Ghost(labels));
            let ghost old_order = order@;
            order.insert(p, i);
            proof {
                assert(order@ == old_order.insert(p as int, i));
                assert forall|a: int, c: int| 0 <= a < c < order@.len() implies rank_before(
                    scores,
                    labels,
                    #[trigger] order@[a] as int,
                    #[trigger] order@[c] as int,
                ) by {
                    if c < p {
                        assert(order@[a] == old_order[a] && order@[c] == old_order[c]);
                    } else if c == p {
                        assert(order@[a] == old_order[a]);
                    } else if a == p {
                        assert(order@[c] == old_order[c - 1]);
                        if c - 1 > p {
                            lemma_rank_before_trans(
                                scores,
                                labels,
                                i as int,
                                old_order[p as int] as int,
                                old_order[c - 1] as int,
                            );
                        }
                    } else if a < p {
                        assert(order@[a] == old_order[a] && order@[c] == old_order[c - 1]);
                    } else {
                        assert(order@[a] == old_order[a - 1] && order@[c] == old_order[c - 1]);
                    }
                }
                assert forall|x: int| 0 <= x < i + 1 && #[trigger] kept[x] implies order@.contains(
                    x as usize,
                ) by {
                    if x == i {
                        assert(order@[p as int] == i);
                    } else {
                        assert(old_order.contains(x as usize));
                        let k = choose|k: int| 0 <= k < old_order.len() && old_order[k] == x as usize;
                        if k < p {
                            assert(order@[k] == x as usize);
                        } else {
                            assert(order@[k + 1] == x as usize);
                        }
                    }
                }
                assert forall|k: int| 0 <= k < order@.len() implies 0 <= #[trigger] order@[k] < i + 1
                    && kept[order@[k] as int] by {
                    if k < p {
                        assert(order@[k] == old_order[k]);
                    } else if k > p {
                        assert(order@[k] == old_order[k - 1]);
                    }
                }
            }
        } else {
            proof {
                assert(!kept[i as int]);
            }
        }
        i = i + 1;
    }
    let take = if limit < order.len() {
        limit
    } else {
        order.len()
    };
    let mut res: Vec<CompletionItem> = Vec::new();
    let mut k: usize = 0;
    while k < take
        invariant
            take <= order@.len(),
            forall|m: int| 0 <= m < order@.len() ==> 0 <= #[trigger] order@[m] < candidates@.len(),
            k <= take,
            res@.len() == k,
            forall|m: int| 0 <= m < k ==> #[trigger] res@[m] == candidates@[order@[m] as int].item,
        decreases take - k,
    {
        let o = order[k];
        let it = candidates[o].item.clone();
        res.push(it);
        k = k + 1;
    }
    proof {
        let ord = order@.map_values(|x: usize| x as int);
        assert(is_ranking(ord, scores, labels, kept, n as int)) by {
            assert forall|x: int| 0 <= x < n && #[trigger] kept[x] implies ord.contains(x) by {
                let k = choose|k: int| 0 <= k < order@.len() && order@[k] == x as usize;
                assert(ord[k] == x);
            }
        }
        assert(forall|m: int| 0 <= m < res@.len() ==> #[trigger] res@[m] == candidates@[ord[m]].item);
    }
    res
}

/// The lowered label bytes of each candidate.
pub open spec fn lowered_labels(cands: Seq<RankCandidate>) -> Seq<Seq<u8>> {
    Seq::new(cands.len(), |i: int| encode_utf8(lowercase_of(cands[i].label@)))
}

/// The lowered basename bytes of each candidate that has one.
pub open spec fn lowered_bases(cands: Seq<RankCandidate>) -> Seq<Option<Seq<u8>>> {
    Seq::new(
        cands.len(),
        |i: int|
            match cands[i].basename {
                Some(b) => Some(encode_utf8(lowercase_of(b@))),
                None => None,
            },
    )
}

/// Rank `candidates` against `query` and return the top `limit` items.
///
/// Matching is case-insensitive subsequence on the lower-cased texts:
/// exact, prefix, contiguous and boundary-aligned matches score higher
/// ([`score_text`]); a candidate's `basename`, where the query matches it,
/// is scored with a boost above its full label. An empty query keeps every
/// candidate at one equal score; otherwise a candidate stays only when the
/// query is a subsequence of its label or basename. Ties break by label,
/// then by input order, so results do not reshuffle frame to frame.
pub fn rank(query: &str, candidates: Vec<RankCandidate>, limit: usize) -> (res: Vec<CompletionItem>)
    ensures
        ranked_result(
            res@,
            candidates@,
            scores_of(
                lowered_labels(candidates@),
                lowered_bases(candidates@),
                encode_utf8(lowercase_of(query@)),
            ),
            encode_utf8(lowercase_of(query@)),
            limit as int,
        ),
{
    let needle = lowercase(query);
    let mut labels_l: Vec<String> = Vec::new();
    let mut bases_l: Vec<Option<String>> = Vec::new();
    let mut i: usize = 0;
    while i < candidates.len()
        invariant
            i <= candidates@.len(),
            labels_l@.len() == i,
            bases_l@.len() == i,
            forall|k: int| 0 <= k < i ==> #[trigger] labels_l@[k]@ == lowercase_of(candidates@[k].label@),
            forall|k: int|
                0 <= k < i ==> match (#[trigger] bases_l@[k], candidates@[k].basename) {
                    (Some(l), Some(b)) => l@ == lowercase_of(b@),
                    (None, None) => true,
                    _ => false,
                },
        decreases candidates@.len() - i,
    {
        labels_l.push(lowercase(candidates[i].label.as_str()));
        let b = match &candidates[i].basename {
            Some(bn) => Some(lowercase(bn.as_str())),
            None => None,
        };
        bases_l.push(b);
        i = i + 1;
    }
    proof {
        assert(bytes_of_strings(labels_l@) =~= lowered_labels(candidates@));
        assert(bytes_of_opt_strings(bases_l@) =~= lowered_bases(candidates@)) by {
            assert forall|k: int| 0 <= k < candidates@.len() implies bytes_of_opt_strings(bases_l@)[k]
                == lowered_bases(candidates@)[k] by {
                match (bases_l@[k], candidates@[k].basename) {
                    (Some(l), Some(b)) => {},
                    (None, None) => {},
                    _ => {},
                }
            }
        }
    }
    rank_lowered(needle.as_str(), &labels_l, &bases_l, &candidates, limit)
}

/// Per-frame state of the autocomplete popup. Inactive by default.
#[derive(Debug)]
pub struct CompletionState {
    pub active: bool,
    pub items: Vec<CompletionItem>,
    /// Index of the highlighted item in `items`.
    pub selected: usize,
    /// Byte offset where the popup was opened (used to anchor the popup and
    /// to compute the live query).
    pub anchor_byte: usize,
    /// Current query string (chars typed after `anchor_byte`).
    pub query: String,
}

impl Default for CompletionState {
    fn default() -> (s: CompletionState)
        ensures
            !s.active,
            s.items@.len() == 0,
            s.selected == 0,
            s.anchor_byte == 0,
            s.query@.len() == 0,
    {
        CompletionState {
            active: false,
            items: Vec::new(),
            selected: 0,
            anchor_byte: 0,
            query: String::new(),
        }
    }
}

impl CompletionState {
    /// Close the popup: inactive, no items, first row highlighted, empty
    /// query; the anchor is kept.
    pub fn close(&mut self)
        ensures
            !final(self).active,
            final(self).items@.len() == 0,
            final(self).selected == 0,
            final(self).query@.len() == 0,
            final(self).anchor_byte == old(self).anchor_byte,
    {
        self.active = false;
        self.items.clear();
        self.selected = 0;
        self.query = String::new();
    }

    /// Open the popup at `anchor_byte` on `items`: active exactly when there
    /// is an item, first row highlighted, empty query.
    pub fn open(&mut self, anchor_byte: usize, items: Vec<CompletionItem>)
        ensures
            final(self).active == (items@.len() > 0),
            final(self).items@ == items@,
            final(self).selected == 0,
            final(self).anchor_byte == anchor_byte,
            final(self).query@.len() == 0,
    {
        self.active = items.len() > 0;
        self.items = items;
        self.selected = 0;
        self.anchor_byte = anchor_byte;
        self.query = String::new();
    }

    /// Move the highlight by `delta` rows, wrapping around the list (a
    /// Euclidean remainder, so moving up from the first row lands on the
    /// last). Nothing happens when the list is empty.
    pub fn move_selection(&mut self, delta: isize)
        requires
            old(self).items@.len() > 0 ==> old(self).items@.len() <= isize::MAX && old(self).selected
                <= isize::MAX && isize::MIN <= old(self).selected + delta <= isize::MAX,
        ensures
            final(self).items@ == old(self).items@,
            final(self).active == old(self).active,
            final(self).anchor_byte == old(self).anchor_byte,
            final(self).query@ == old(self).query@,
            final(self).selected == if old(self).items@.len() == 0 {
                old(self).selected as int
            } else {
                (old(self).selected + delta) % (old(self).items@.len() as int)
            },
    {
        if self.items.len() == 0 {
            return;
        }
        let n = self.items.len() as isize;
        let s = self.selected as isize + delta;
        match s.checked_rem_euclid(n) {
            Some(r) => {
                self.selected = r as usize;
            },
            None => {},
        }
    }

    /// The highlighted item, if the highlight is on a row.
    pub fn selected_item(&self) -> (r: Option<&CompletionItem>)
        ensures
            r == if self.selected < self.items@.len() {
                Some(&self.items@[self.selected as int])
            } else {
                None
            },
    {
        if self.selected < self.items.len() {
            Some(&self.items[self.selected])
        } else {
            None
        }
    }
}

} // verus!
