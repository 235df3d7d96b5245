//! Finding an anchor's lines again by their hashes, anywhere in a file.

use vstd::prelude::*;

use crate::lines;
use crate::lines::FileIndex;
use crate::model::{Anchor, AnchorView};
use crate::text;
use crate::text::parse_hash;

verus! {

/// Largest internal insertion or deletion tolerated while re-aligning an anchor.
pub const MAX_INTERNAL_DRIFT: i64 = 2;

/// Score, in hundredths of a percent, of a full alignment.
pub const W_POS_BP: u64 = 7_000;

/// Score of a context that is found unchanged.
pub const W_CTX_BP: u64 = 1_500;

/// Score from which a match is accepted.
pub const ACCEPT_BP: u64 = 6_000;

/// Score from which a match of a short anchor is accepted.
pub const ACCEPT_BP_SHORT: u64 = 8_000;

/// Anchors of up to this many lines are short.
pub const SHORT_ANCHOR_LINES: u32 = 2;

/// Most pairs of file line and anchor line that a scan looks at.
pub const SCAN_OP_BUDGET: u64 = 5_000_000;

/// Whether a wanted hash is present and equal to `actual`.
pub open spec fn hit(wanted: Option<u64>, actual: u64) -> bool {
    wanted == Some(actual)
}

/// Number of hits among `len` wanted lines from `w` on, held against the actual lines
/// from `a` on.
pub open spec fn hits(
    wanted: Seq<Option<u64>>,
    actual: Seq<u64>,
    w: int,
    a: int,
    len: int,
) -> int
    decreases len,
{
    if len <= 0 {
        0
    } else {
        hits(wanted, actual, w, a, len - 1) + if hit(wanted[w + len - 1], actual[a + len - 1]) {
            1int
        } else {
            0int
        }
    }
}

/// Number of wanted lines that stand before or behind a gap of `d`, when `d` lines
/// were inserted (`d > 0`) or deleted (`d < 0`).
pub open spec fn head_len(k: int, d: int) -> int {
    if d >= 0 {
        k
    } else {
        k + d
    }
}

/// Hits in the window that starts at `start`, when `d` lines were inserted or deleted
/// behind the first `g` anchor lines.
pub open spec fn gap_hits(
    wanted: Seq<Option<u64>>,
    actual: Seq<u64>,
    start: int,
    d: int,
    g: int,
) -> int {
    let rest = head_len(wanted.len() as int, d) - g;
    hits(wanted, actual, 0, start, g) + if d >= 0 {
        hits(wanted, actual, g, start + g + d, rest)
    } else {
        hits(wanted, actual, g - d, start + g, rest)
    }
}

/// The most hits that a gap behind at most `n` anchor lines gives.
pub open spec fn best_gap(
    wanted: Seq<Option<u64>>,
    actual: Seq<u64>,
    start: int,
    d: int,
    n: int,
) -> int
    decreases n,
{
    let here = gap_hits(wanted, actual, start, d, n);
    if n <= 0 {
        here
    } else {
        let below = best_gap(wanted, actual, start, d, n - 1);
        if below >= here {
            below
        } else {
            here
        }
    }
}

/// The most anchor lines found in order in the window `start..start + k + d`, with at
/// most one gap.
pub open spec fn alignment(
    wanted: Seq<Option<u64>>,
    actual: Seq<u64>,
    start: int,
    d: int,
) -> int {
    best_gap(wanted, actual, start, d, head_len(wanted.len() as int, d))
}

proof fn lemma_hits_bound(wanted: Seq<Option<u64>>, actual: Seq<u64>, w: int, a: int, len: int)
    ensures
        0 <= hits(wanted, actual, w, a, len),
        0 <= len ==> hits(wanted, actual, w, a, len) <= len,
    decreases len,
{
    if len > 0 {
        lemma_hits_bound(wanted, actual, w, a, len - 1);
    }
}

proof fn lemma_hits_first(wanted: Seq<Option<u64>>, actual: Seq<u64>, w: int, a: int, len: int)
    requires
        len > 0,
    ensures
        hits(wanted, actual, w, a, len) == hits(wanted, actual, w + 1, a + 1, len - 1) + if hit(
            wanted[w],
            actual[a],
        ) {
            1int
        } else {
            0int
        },
    decreases len,
{
    if len > 1 {
        lemma_hits_first(wanted, actual, w, a, len - 1);
    } else {
        assert(hits(wanted, actual, w, a, 0) == 0);
        assert(hits(wanted, actual, w + 1, a + 1, 0) == 0);
    }
}

proof fn lemma_hits_split(
    wanted: Seq<Option<u64>>,
    actual: Seq<u64>,
    w: int,
    a: int,
    g: int,
    len: int,
)
    requires
        0 <= g <= len,
    ensures
        hits(wanted, actual, w, a, len) == hits(wanted, actual, w, a, g) + hits(
            wanted,
            actual,
            w + g,
            a + g,
            len - g,
        ),
    decreases len,
{
    if g < len {
        lemma_hits_split(wanted, actual, w, a, g, len - 1);
    }
}

/// Without a gap it does not matter where the gap would be.
proof fn lemma_no_gap(wanted: Seq<Option<u64>>, actual: Seq<u64>, start: int, n: int)
    requires
        0 <= n <= wanted.len(),
    ensures
        best_gap(wanted, actual, start, 0, n) == hits(
            wanted,
            actual,
            0,
            start,
            wanted.len() as int,
        ),
    decreases n,
{
    lemma_hits_split(wanted, actual, 0, start, n, wanted.len() as int);
    if n > 0 {
        lemma_no_gap(wanted, actual, start, n - 1);
    }
}

/// Every gap is at most as good as the best one, and no alignment finds more lines
/// than the anchor has.
pub proof fn lemma_alignment_bounds(
    wanted: Seq<Option<u64>>,
    actual: Seq<u64>,
    start: int,
    d: int,
    n: int,
)
    requires
        0 <= n <= head_len(wanted.len() as int, d),
    ensures
        0 <= best_gap(wanted, actual, start, d, n) <= head_len(wanted.len() as int, d),
        forall|g: int|
            0 <= g <= n ==> #[trigger] gap_hits(wanted, actual, start, d, g) <= best_gap(
                wanted,
                actual,
                start,
                d,
                n,
            ),
    decreases n,
{
    let rest = head_len(wanted.len() as int, d) - n;
    lemma_hits_bound(wanted, actual, 0, start, n);
    lemma_hits_bound(wanted, actual, n, start + n + d, rest);
    lemma_hits_bound(wanted, actual, n - d, start + n, rest);
    if n > 0 {
        lemma_alignment_bounds(wanted, actual, start, d, n - 1);
    }
}

fn is_hit(wanted: Option<u64>, actual: u64) -> (yes: bool)
    ensures
        yes == hit(wanted, actual),
{
    match wanted {
        Some(w) => w == actual,
        None => false,
    }
}

/// Anchor lines matched inside the window `start..start + k + d`, allowing one internal
/// split where `d` lines were inserted (`d > 0`) or deleted (`d < 0`). The two buffers
/// hold one number per anchor line and one more.
pub fn best_alignment(
    wanted: &[Option<u64>],
    actual: &[u64],
    start: usize,
    d: i64,
    prefix: &mut Vec<usize>,
    suffix: &mut Vec<usize>,
) -> (matched: usize)
    requires
        0 <= wanted@.len() + d,
        start + wanted@.len() + d <= actual@.len(),
        old(prefix)@.len() > wanted@.len(),
        old(suffix)@.len() > wanted@.len(),
    ensures
        matched == alignment(wanted@, actual@, start as int, d as int),
        matched <= wanted@.len(),
        final(prefix)@.len() == old(prefix)@.len(),
        final(suffix)@.len() == old(suffix)@.len(),
{
    let k: usize = wanted.len();
    let n: usize = actual.len();
    proof {
        lemma_alignment_bounds(
            wanted@,
            actual@,
            start as int,
            d as int,
            head_len(k as int, d as int),
        );
    }
    if d == 0 {
        let mut count: usize = 0;
        let mut i: usize = 0;
        while i < k
            invariant
                k == wanted@.len(),
                n == actual@.len(),
                start + k <= n,
                i <= k,
                count <= i,
                count == hits(wanted@, actual@, 0, start as int, i as int),
            decreases k - i,
        {
            if is_hit(wanted[i], actual[start + i]) {
                count += 1;
            }
            i += 1;
        }
        proof {
            lemma_no_gap(wanted@, actual@, start as int, k as int);
        }
        return count;
    }
    let gap: usize = if d > 0 {
        d as usize
    } else {
        (-(d + 1)) as usize + 1
    };
    let head: usize = if d > 0 {
        k
    } else {
        k - gap
    };
    prefix.set(0, 0);
    let mut g: usize = 0;
    while g < head
        invariant
            k == wanted@.len(),
            g <= head <= k,
            n == actual@.len(),
            start + head <= n,
            prefix@.len() > k,
            prefix@.len() == old(prefix)@.len(),
            forall|j: int|
                0 <= j <= g ==> #[trigger] prefix@[j] == hits(
                    wanted@,
                    actual@,
                    0,
                    start as int,
                    j,
                ),
            prefix@[g as int] <= g,
        decreases head - g,
    {
        let here: usize = if is_hit(wanted[g], actual[start + g]) {
            1
        } else {
            0
        };
        let sum: usize = prefix[g] + here;
        prefix.set(g + 1, sum);
        g += 1;
    }
    suffix.set(head, 0);
    let mut g: usize = head;
    while g > 0
        invariant
            k == wanted@.len(),
            g <= head <= k,
            d != 0,
            n == actual@.len(),
            d > 0 ==> gap == d && head == k && start + k + gap <= n,
            d < 0 ==> gap == -d && head + gap == k && start + head <= n,
            suffix@.len() > k,
            suffix@.len() == old(suffix)@.len(),
            forall|j: int|
                g <= j <= head ==> #[trigger] suffix@[j] == if d >= 0 {
                    hits(wanted@, actual@, j, start + j + d, head - j)
                } else {
                    hits(wanted@, actual@, j - d, start + j, head - j)
                },
            suffix@[g as int] <= head - g,
        decreases g,
    {
        let i: usize = g - 1;
        let matched = if d > 0 {
            is_hit(wanted[i], actual[start + i + gap])
        } else {
            is_hit(wanted[i + gap], actual[start + i])
        };
        proof {
            if d > 0 {
                lemma_hits_first(wanted@, actual@, i as int, start + i + d, head - i);
            } else {
                lemma_hits_first(wanted@, actual@, i - d, start + i, head - i);
            }
        }
        let here: usize = if matched {
            1
        } else {
            0
        };
        let sum: usize = suffix[g] + here;
        suffix.set(i, sum);
        g = i;
    }
    let mut best: usize = 0;
    let mut g: usize = 0;
    proof {
        lemma_hits_bound(wanted@, actual@, 0, start as int, 0);
    }
    loop
        invariant
            k == wanted@.len(),
            g <= head,
            head <= k,
            0 <= alignment(wanted@, actual@, start as int, d as int) <= k,
            head == head_len(k as int, d as int),
            prefix@.len() > k,
            suffix@.len() > k,
            prefix@.len() == old(prefix)@.len(),
            suffix@.len() == old(suffix)@.len(),
            forall|j: int|
                0 <= j <= head ==> #[trigger] prefix@[j] == hits(
                    wanted@,
                    actual@,
                    0,
                    start as int,
                    j,
                ),
            forall|j: int|
                0 <= j <= head ==> #[trigger] suffix@[j] == if d >= 0 {
                    hits(wanted@, actual@, j, start + j + d, head - j)
                } else {
                    hits(wanted@, actual@, j - d, start + j, head - j)
                },
            g > 0 ==> best == best_gap(wanted@, actual@, start as int, d as int, g - 1),
            g == 0 ==> best == 0,
        decreases head - g,
    {
        proof {
            lemma_hits_bound(wanted@, actual@, 0, start as int, g as int);
            lemma_hits_bound(wanted@, actual@, g as int, start + g + d, head - g);
            lemma_hits_bound(wanted@, actual@, g - d, start + g, head - g);
        }
        let sum: usize = prefix[g] + suffix[g];
        assert(sum == gap_hits(wanted@, actual@, start as int, d as int, g as int));
        if sum > best {
            best = sum;
        }
        if g == head {
            return best;
        }
        g += 1;
    }
}

/// A window of the file: the anchor's lines with `d` more or fewer, from `start` on.
pub struct Candidate {
    pub d: int,
    pub start: int,
}

/// The hashes that an anchor wants to see, where they are readable.
pub open spec fn wanted_hashes(anchor: AnchorView) -> Seq<Option<u64>> {
    anchor.line_hashes.map_values(|h: Seq<char>| text::hash_of(h))
}

/// The hash of each line.
pub open spec fn line_hashes(lines: Seq<Seq<u8>>) -> Seq<u64> {
    lines.map_values(|l: Seq<u8>| lines::line_hash(l))
}

/// Whether `c` is a window of a file of `n` lines for an anchor of `k` lines.
pub open spec fn is_candidate(k: int, n: int, c: Candidate) -> bool {
    &&& -MAX_INTERNAL_DRIFT <= c.d <= MAX_INTERNAL_DRIFT
    &&& 1 <= k + c.d
    &&& 0 <= c.start
    &&& c.start + k + c.d <= n
}

/// What an unchanged context adds to a score.
pub open spec fn bonus(actual: u64, wanted: Option<u64>) -> int {
    if hit(wanted, actual) {
        W_CTX_BP as int
    } else {
        0
    }
}

/// The score of a window: the share of anchor lines found in it, and whether the lines
/// around it are still the anchor's.
pub open spec fn score(anchor: AnchorView, lines: Seq<Seq<u8>>, c: Candidate) -> int {
    let k = anchor.line_hashes.len() as int;
    let matched = alignment(wanted_hashes(anchor), line_hashes(lines), c.start, c.d);
    W_POS_BP * matched / k + bonus(
        lines::before_hash(lines, c.start),
        text::hash_of(anchor.ctx_before),
    ) + bonus(lines::after_hash(lines, c.start + k + c.d), text::hash_of(anchor.ctx_after))
}

/// The distance of two positions.
pub open spec fn distance(a: int, b: int) -> int {
    if a >= b {
        a - b
    } else {
        b - a
    }
}

/// What windows are ranked by.
pub open spec fn rank(
    anchor: AnchorView,
    lines: Seq<Seq<u8>>,
    expected: int,
    c: Candidate,
) -> (int, int, int, int, int) {
    (score(anchor, lines, c), distance(c.start, expected), distance(c.d, 0), c.start, c.d)
}

/// Whether rank `p` comes before rank `q`: the higher score, then the window closer to
/// the expected position, then the tighter window, then the earlier one, then the one
/// that lost lines.
pub open spec fn precedes(p: (int, int, int, int, int), q: (int, int, int, int, int)) -> bool {
    ||| p.0 > q.0
    ||| p.0 == q.0 && p.1 < q.1
    ||| p.0 == q.0 && p.1 == q.1 && p.2 < q.2
    ||| p.0 == q.0 && p.1 == q.1 && p.2 == q.2 && p.3 < q.3
    ||| p.0 == q.0 && p.1 == q.1 && p.2 == q.2 && p.3 == q.3 && p.4 < q.4
}

/// Whether `c` is the window that comes before all others.
pub open spec fn is_best(
    anchor: AnchorView,
    lines: Seq<Seq<u8>>,
    expected: int,
    c: Candidate,
) -> bool {
    let k = anchor.line_hashes.len() as int;
    let n = lines.len() as int;
    &&& is_candidate(k, n, c)
    &&& forall|other: Candidate| #[trigger]
        is_candidate(k, n, other) && other != c ==> precedes(
            rank(anchor, lines, expected, c),
            rank(anchor, lines, expected, other),
        )
}

/// The score from which a match of an anchor of `k` lines is accepted.
pub open spec fn acceptance(k: int) -> int {
    if k <= SHORT_ANCHOR_LINES {
        ACCEPT_BP_SHORT as int
    } else {
        ACCEPT_BP as int
    }
}

/// Whether an anchor of `k` lines is searched for in a file of `n` lines at all.
pub open spec fn within_budget(k: int, n: int) -> bool {
    k > 0 && n > 0 && n * k <= SCAN_OP_BUDGET
}

/// A search stays within five million lines on either side.
pub proof fn lemma_budget(k: int, n: int)
    requires
        within_budget(k, n),
    ensures
        k <= SCAN_OP_BUDGET,
        n <= SCAN_OP_BUDGET,
{
    assert(n <= 5_000_000 && k <= 5_000_000) by (nonlinear_arith)
        requires
            n * k <= 5_000_000,
            1 <= n,
            1 <= k,
    ;
}

/// Where an anchor is found again: first line, number of lines and score of the best
/// window, if there is one and its score is accepted.
pub open spec fn match_of(
    anchor: AnchorView,
    lines: Seq<Seq<u8>>,
    expected: int,
) -> Option<(int, int, int)> {
    let k = anchor.line_hashes.len() as int;
    let c = choose|c: Candidate| is_best(anchor, lines, expected, c);
    if within_budget(k, lines.len() as int) && is_best(anchor, lines, expected, c) && score(
        anchor,
        lines,
        c,
    ) >= acceptance(k) {
        Some((c.start, k + c.d, score(anchor, lines, c)))
    } else {
        None
    }
}

/// No two windows are both the best.
pub proof fn lemma_best_unique(
    anchor: AnchorView,
    lines: Seq<Seq<u8>>,
    expected: int,
    c1: Candidate,
    c2: Candidate,
)
    requires
        is_best(anchor, lines, expected, c1),
        is_best(anchor, lines, expected, c2),
    ensures
        c1 == c2,
{
    if c1 != c2 {
        let p = rank(anchor, lines, expected, c1);
        let q = rank(anchor, lines, expected, c2);
        assert(precedes(p, q));
        assert(precedes(q, p));
    }
}

/// A match lies inside the file, differs from the anchor by at most two lines, and its
/// score is accepted and at most a full one.
pub proof fn lemma_match_bounds(anchor: AnchorView, lines: Seq<Seq<u8>>, expected: int)
    ensures
        match_of(anchor, lines, expected) matches Some((start, len, score)) ==> {
            &&& 0 <= start
            &&& 1 <= len
            &&& start + len <= lines.len()
            &&& -MAX_INTERNAL_DRIFT <= len - anchor.line_hashes.len() <= MAX_INTERNAL_DRIFT
            &&& acceptance(anchor.line_hashes.len() as int) <= score <= W_POS_BP + 2 * W_CTX_BP
        },
{
    if let Some(m) = match_of(anchor, lines, expected) {
        let c = choose|c: Candidate| is_best(anchor, lines, expected, c);
        lemma_score_bound(anchor, lines, c);
    }
}

proof fn lemma_score_bound(anchor: AnchorView, lines: Seq<Seq<u8>>, c: Candidate)
    requires
        is_candidate(anchor.line_hashes.len() as int, lines.len() as int, c),
        anchor.line_hashes.len() > 0,
    ensures
        0 <= score(anchor, lines, c) <= W_POS_BP + 2 * W_CTX_BP,
{
    let k = anchor.line_hashes.len() as int;
    let wanted = wanted_hashes(anchor);
    let actual = line_hashes(lines);
    let matched = alignment(wanted, actual, c.start, c.d);
    lemma_alignment_bounds(wanted, actual, c.start, c.d, head_len(k, c.d));
    lemma_share(matched, k);
}

proof fn lemma_share(matched: int, k: int)
    requires
        0 <= matched <= k,
        0 < k,
    ensures
        0 <= W_POS_BP * matched / k <= W_POS_BP,
{
    assert(0 <= 7_000 * matched / k <= 7_000) by (nonlinear_arith)
        requires
            0 <= matched <= k,
            0 < k,
    ;
}

/// Where an anchor was found again.
#[derive(Debug, Clone, Copy)]
pub struct MatchResult {
    pub start: usize,
    pub len: usize,
    pub score_bp: u64,
}

fn ctx_bonus(actual: u64, wanted: Option<u64>) -> (out: u64)
    ensures
        out == bonus(actual, wanted),
{
    if is_hit(wanted, actual) {
        W_CTX_BP
    } else {
        0
    }
}

fn parse_hashes(hashes: &Vec<String>) -> (out: Vec<Option<u64>>)
    ensures
        out@ == crate::model::texts(hashes@).map_values(|h: Seq<char>| text::hash_of(h)),
{
    let mut out: Vec<Option<u64>> = Vec::new();
    let mut i: usize = 0;
    while i < hashes.len()
        invariant
            i <= hashes@.len(),
            out@.len() == i,
            forall|j: int| 0 <= j < i ==> #[trigger] out@[j] == text::hash_of(hashes@[j]@),
        decreases hashes@.len() - i,
    {
        out.push(parse_hash(hashes[i].as_str()));
        i += 1;
    }
    assert(out@ =~= crate::model::texts(hashes@).map_values(|h: Seq<char>| text::hash_of(h)));
    out
}

fn zeros(len: usize) -> (out: Vec<usize>)
    ensures
        out@.len() == len,
{
    let mut out: Vec<usize> = Vec::new();
    let mut i: usize = 0;
    while i < len
        invariant
            i <= len,
            out@.len() == i,
        decreases len - i,
    {
        out.push(0);
        i += 1;
    }
    out
}

/// Whether the scan has already looked at `c` when it stands at `(d, start)`.
spec fn scanned(k: int, n: int, d: int, start: int, c: Candidate) -> bool {
    is_candidate(k, n, c) && (c.d < d || (c.d == d && c.start < start))
}

/// What the scan knows at `(d, start)`: the best of the windows looked at so far.
spec fn scan_state(
    anchor: AnchorView,
    lines: Seq<Seq<u8>>,
    expected: int,
    d: int,
    start: int,
    best: Option<Candidate>,
) -> bool {
    let k = anchor.line_hashes.len() as int;
    let n = lines.len() as int;
    match best {
        None => forall|c: Candidate| #[trigger] is_candidate(k, n, c) ==> !scanned(k, n, d, start, c),
        Some(b) => {
            &&& scanned(k, n, d, start, b)
            &&& forall|c: Candidate| #[trigger]
                is_candidate(k, n, c) && scanned(k, n, d, start, c) && c != b ==> precedes(
                    rank(anchor, lines, expected, b),
                    rank(anchor, lines, expected, c),
                )
        },
    }
}

/// Looking at the window `(d, start)` keeps the state.
proof fn lemma_scan_step(
    anchor: AnchorView,
    lines: Seq<Seq<u8>>,
    expected: int,
    d: int,
    start: int,
    best: Option<Candidate>,
    next: Option<Candidate>,
)
    requires
        scan_state(anchor, lines, expected, d, start, best),
        is_candidate(
            anchor.line_hashes.len() as int,
            lines.len() as int,
            Candidate { d, start },
        ),
        ({
            let here = Candidate { d, start };
            let p = rank(anchor, lines, expected, here);
            match best {
                None => next == Some(here),
                Some(b) => {
                    let q = rank(anchor, lines, expected, b);
                    if p.0 > q.0 || (p.0 == q.0 && (p.1 < q.1 || (p.1 == q.1 && (p.2 < q.2 || (p.2
                        == q.2 && p.3 < q.3))))) {
                        next == Some(here)
                    } else {
                        next == best
                    }
                },
            }
        }),
    ensures
        scan_state(anchor, lines, expected, d, start + 1, next),
{
    let k = anchor.line_hashes.len() as int;
    let n = lines.len() as int;
    let here = Candidate { d, start };
    let p = rank(anchor, lines, expected, here);
    let kept = next->0;
    assert(scanned(k, n, d, start + 1, kept));
    assert forall|c: Candidate| #[trigger]
        is_candidate(k, n, c) && scanned(k, n, d, start + 1, c) && c != kept implies precedes(
        rank(anchor, lines, expected, kept),
        rank(anchor, lines, expected, c),
    ) by {
        let r = rank(anchor, lines, expected, c);
        if !scanned(k, n, d, start, c) {
            assert(c.d == d && c.start == start);
            assert(c == here);
        }
        if best is Some {
            let b = best->0;
            let q = rank(anchor, lines, expected, b);
            if c != b && scanned(k, n, d, start, c) {
                assert(precedes(q, r));
            }
        }
    }
}

/// After the last window of width `k + d` the scan goes on with the next width.
proof fn lemma_scan_row(
    anchor: AnchorView,
    lines: Seq<Seq<u8>>,
    expected: int,
    d: int,
    best: Option<Candidate>,
)
    requires
        ({
            let span = anchor.line_hashes.len() + d;
            let n = lines.len() as int;
            scan_state(
                anchor,
                lines,
                expected,
                d,
                if 1 <= span <= n { n - span + 1 } else { 0 },
                best,
            )
        }),
    ensures
        scan_state(anchor, lines, expected, d + 1, 0, best),
{
    let k = anchor.line_hashes.len() as int;
    let n = lines.len() as int;
    let span = k + d;
    let stop = if 1 <= span <= n { n - span + 1 } else { 0 };
    assert forall|c: Candidate| #[trigger] is_candidate(k, n, c) implies scanned(
        k,
        n,
        d + 1,
        0,
        c,
    ) == scanned(k, n, d, stop, c) by {}
}

/// When every window was looked at, the best of them is the best of all.
proof fn lemma_scan_end(
    anchor: AnchorView,
    lines: Seq<Seq<u8>>,
    expected: int,
    best: Option<Candidate>,
)
    requires
        scan_state(anchor, lines, expected, MAX_INTERNAL_DRIFT + 1, 0, best),
    ensures
        match best {
            Some(b) => is_best(anchor, lines, expected, b) && b == choose|c: Candidate|
                is_best(anchor, lines, expected, c),
            None => forall|c: Candidate| !is_best(anchor, lines, expected, c),
        },
{
    let k = anchor.line_hashes.len() as int;
    let n = lines.len() as int;
    assert forall|c: Candidate| #[trigger] is_candidate(k, n, c) implies scanned(
        k,
        n,
        MAX_INTERNAL_DRIFT + 1,
        0,
        c,
    ) by {}
    match best {
        Some(b) => {
            assert(is_best(anchor, lines, expected, b));
            let chosen = choose|c: Candidate| is_best(anchor, lines, expected, c);
            lemma_best_unique(anchor, lines, expected, b, chosen);
        },
        None => {
            assert forall|c: Candidate| !is_best(anchor, lines, expected, c) by {
                if is_best(anchor, lines, expected, c) {
                    assert(is_candidate(k, n, c));
                }
            }
        },
    }
}

/// The scan's state exists at every point of the scan.
proof fn lemma_scan_exists(
    anchor: AnchorView,
    lines: Seq<Seq<u8>>,
    expected: int,
    d: int,
    start: int,
) -> (best: Option<Candidate>)
    requires
        -MAX_INTERNAL_DRIFT <= d <= MAX_INTERNAL_DRIFT + 1,
        0 <= start,
        start > 0 ==> d <= MAX_INTERNAL_DRIFT && 1 <= anchor.line_hashes.len() + d && start - 1
            + anchor.line_hashes.len() + d <= lines.len(),
    ensures
        scan_state(anchor, lines, expected, d, start, best),
    decreases d + MAX_INTERNAL_DRIFT, start,
{
    let k = anchor.line_hashes.len() as int;
    let n = lines.len() as int;
    if start > 0 {
        let before = lemma_scan_exists(anchor, lines, expected, d, start - 1);
        let here = Candidate { d, start: start - 1 };
        let p = rank(anchor, lines, expected, here);
        let next = match before {
            None => Some(here),
            Some(b) => {
                let q = rank(anchor, lines, expected, b);
                if p.0 > q.0 || (p.0 == q.0 && (p.1 < q.1 || (p.1 == q.1 && (p.2 < q.2 || (p.2
                    == q.2 && p.3 < q.3))))) {
                    Some(here)
                } else {
                    before
                }
            },
        };
        lemma_scan_step(anchor, lines, expected, d, start - 1, before, next);
        next
    } else if d > -MAX_INTERNAL_DRIFT {
        let span = k + d - 1;
        let stop = if 1 <= span <= n { n - span + 1 } else { 0 };
        let best = lemma_scan_exists(anchor, lines, expected, d - 1, stop);
        lemma_scan_row(anchor, lines, expected, d - 1, best);
        best
    } else {
        None
    }
}

proof fn lemma_all_hits(wanted: Seq<Option<u64>>, actual: Seq<u64>, a: int, len: int)
    requires
        0 <= len,
        forall|t: int| 0 <= t < len ==> #[trigger] wanted[t] == Some(actual[a + t]),
    ensures
        hits(wanted, actual, 0, a, len) == len,
    decreases len,
{
    if len > 0 {
        lemma_all_hits(wanted, actual, a, len - 1);
        assert(wanted[len - 1] == Some(actual[a + len - 1]));
    }
}

/// An anchor whose lines stand unchanged anywhere in the file is found again. One of at
/// most two lines needs its surroundings unchanged, too.
pub proof fn lemma_moved_lines_found(
    anchor: AnchorView,
    lines: Seq<Seq<u8>>,
    expected: int,
    at: int,
)
    requires
        within_budget(anchor.line_hashes.len() as int, lines.len() as int),
        0 <= at,
        at + anchor.line_hashes.len() <= lines.len(),
        anchor.line_hashes == lines::hash_texts(
            lines.subrange(at, at + anchor.line_hashes.len()),
        ),
        anchor.line_hashes.len() <= SHORT_ANCHOR_LINES ==> {
            &&& anchor.ctx_before == text::hex_digits(lines::before_hash(lines, at) as nat, 16)
            &&& anchor.ctx_after == text::hex_digits(
                lines::after_hash(lines, at + anchor.line_hashes.len()) as nat,
                16,
            )
        },
    ensures
        match_of(anchor, lines, expected) matches Some((start, len, score)) && score >= W_POS_BP,
{
    let k = anchor.line_hashes.len() as int;
    let n = lines.len() as int;
    let here = Candidate { d: 0, start: at };
    let wanted = wanted_hashes(anchor);
    let actual = line_hashes(lines);
    assert forall|t: int| 0 <= t < k implies #[trigger] wanted[t] == Some(actual[at + t]) by {
        assert(anchor.line_hashes[t] == text::hex_digits(
            lines::line_hash(lines.subrange(at, at + k)[t]) as nat,
            16,
        ));
        text::lemma_hash_roundtrip(lines::line_hash(lines[at + t]));
    }
    lemma_all_hits(wanted, actual, at, k);
    lemma_no_gap(wanted, actual, at, k);
    assert(7_000 * k / k == 7_000) by (nonlinear_arith)
        requires
            k > 0,
    ;
    if k <= SHORT_ANCHOR_LINES {
        text::lemma_hash_roundtrip(lines::before_hash(lines, at));
        text::lemma_hash_roundtrip(lines::after_hash(lines, at + k));
        assert(score(anchor, lines, here) == 10_000);
    }
    let best = lemma_scan_exists(anchor, lines, expected, MAX_INTERNAL_DRIFT + 1, 0);
    lemma_scan_end(anchor, lines, expected, best);
    assert(is_candidate(k, n, here));
    assert(scanned(k, n, MAX_INTERNAL_DRIFT + 1, 0, here));
    let b = best->0;
    if b != here {
        assert(precedes(rank(anchor, lines, expected, b), rank(anchor, lines, expected, here)));
    }
}

fn away(a: i64, b: i64) -> (out: i64)
    requires
        distance(a as int, b as int) <= i64::MAX,
    ensures
        out == distance(a as int, b as int),
{
    if a >= b {
        a - b
    } else {
        b - a
    }
}

/// Whole-file candidate scan for the anchor's lines, tolerating up to
/// [`MAX_INTERNAL_DRIFT`] inserted or deleted lines inside the span.
pub fn rematch(anchor: &Anchor, index: &FileIndex<'_>, expected: i64) -> (found: Option<
    MatchResult,
>)
    requires
        index.wf(),
        within_budget(anchor.line_hashes@.len() as int, index.text().len() as int)
            ==> index.text().len() - expected <= i64::MAX,
    ensures
        match found {
            Some(m) => match_of(anchor@, index.text(), expected as int) == Some(
                (m.start as int, m.len as int, m.score_bp as int),
            ),
            None => match_of(anchor@, index.text(), expected as int) is None,
        },
{
    let k: usize = anchor.line_hashes.len();
    let n: usize = index.line_hashes.len();
    let ghost lines = index.text();
    let ghost av = anchor@;
    assert(n == lines.len() && k == av.line_hashes.len());
    if k == 0 || n == 0 {
        return None;
    }
    let within = match (n as u64).checked_mul(k as u64) {
        Some(ops) => ops <= SCAN_OP_BUDGET,
        None => false,
    };
    if !within {
        return None;
    }
    proof {
        lemma_budget(k as int, n as int);
    }
    let wanted = parse_hashes(&anchor.line_hashes);
    let ctx_before = parse_hash(anchor.ctx_before.as_str());
    let ctx_after = parse_hash(anchor.ctx_after.as_str());
    let mut prefix = zeros(k + 1);
    let mut suffix = zeros(k + 1);
    assert(wanted@ == wanted_hashes(av));
    assert(index.line_hashes@ =~= line_hashes(lines));
    let mut best: Option<(i64, MatchResult)> = None;
    let ghost mut best_candidate: Option<Candidate> = None;
    let mut d: i64 = -MAX_INTERNAL_DRIFT;
    while d <= MAX_INTERNAL_DRIFT
        invariant
            index.wf(),
            lines == index.text(),
            av == anchor@,
            n == lines.len(),
            k == av.line_hashes.len(),
            1 <= n <= 5_000_000,
            1 <= k <= 5_000_000,
            n - expected <= i64::MAX,
            wanted@ == wanted_hashes(av),
            index.line_hashes@ == line_hashes(lines),
            ctx_before == text::hash_of(av.ctx_before),
            ctx_after == text::hash_of(av.ctx_after),
            prefix@.len() == k + 1,
            suffix@.len() == k + 1,
            -MAX_INTERNAL_DRIFT <= d <= MAX_INTERNAL_DRIFT + 1,
            scan_state(av, lines, expected as int, d as int, 0, best_candidate),
            match (best, best_candidate) {
                (None, None) => true,
                (Some(b), Some(c)) => b.0 == c.d && b.1.start == c.start && b.1.len == k + c.d
                    && b.1.score_bp == score(av, lines, c),
                _ => false,
            },
        decreases MAX_INTERNAL_DRIFT + 1 - d,
    {
        let span: i64 = k as i64 + d;
        if span >= 1 && span <= n as i64 {
            let span: usize = span as usize;
            let last: usize = n - span;
            let mut start: usize = 0;
            while start <= last
                invariant
                    index.wf(),
                    lines == index.text(),
                    av == anchor@,
                    n == lines.len(),
                    k == av.line_hashes.len(),
                    1 <= n <= 5_000_000,
                    1 <= k <= 5_000_000,
                    n - expected <= i64::MAX,
                    wanted@ == wanted_hashes(av),
                    index.line_hashes@ == line_hashes(lines),
                    ctx_before == text::hash_of(av.ctx_before),
                    ctx_after == text::hash_of(av.ctx_after),
                    prefix@.len() == k + 1,
                    suffix@.len() == k + 1,
                    -MAX_INTERNAL_DRIFT <= d <= MAX_INTERNAL_DRIFT,
                    span == k + d,
                    1 <= span <= n,
                    last == n - span,
                    start <= last + 1,
                    scan_state(av, lines, expected as int, d as int, start as int, best_candidate),
                    match (best, best_candidate) {
                        (None, None) => true,
                        (Some(b), Some(c)) => b.0 == c.d && b.1.start == c.start && b.1.len == k
                            + c.d && b.1.score_bp == score(av, lines, c),
                        _ => false,
                    },
                decreases last + 1 - start,
            {
                let ghost here = Candidate { d: d as int, start: start as int };
                let matched = best_alignment(
                    wanted.as_slice(),
                    index.line_hashes.as_slice(),
                    start,
                    d,
                    &mut prefix,
                    &mut suffix,
                );
                proof {
                    lemma_share(matched as int, k as int);
                }
                let points: u64 = W_POS_BP * matched as u64 / k as u64 + ctx_bonus(
                    index.ctx_before_at[start],
                    ctx_before,
                ) + ctx_bonus(index.ctx_after_at[start + span], ctx_after);
                assert(points == score(av, lines, here));
                let closer = match &best {
                    None => true,
                    Some(b) => {
                        let there: i64 = b.1.start as i64;
                        if points != b.1.score_bp {
                            points > b.1.score_bp
                        } else if away(start as i64, expected) != away(there, expected) {
                            away(start as i64, expected) < away(there, expected)
                        } else if away(d, 0) != away(b.0, 0) {
                            away(d, 0) < away(b.0, 0)
                        } else {
                            start < b.1.start
                        }
                    },
                };
                let ghost before = best_candidate;
                if closer {
                    best = Some((d, MatchResult { start, len: span, score_bp: points }));
                    proof {
                        best_candidate = Some(here);
                    }
                }
                proof {
                    lemma_scan_step(
                        av,
                        lines,
                        expected as int,
                        d as int,
                        start as int,
                        before,
                        best_candidate,
                    );
                }
                start += 1;
            }
        }
        proof {
            lemma_scan_row(av, lines, expected as int, d as int, best_candidate);
        }
        d += 1;
    }
    let accept: u64 = if k <= SHORT_ANCHOR_LINES as usize {
        ACCEPT_BP_SHORT
    } else {
        ACCEPT_BP
    };
    proof {
        lemma_scan_end(av, lines, expected as int, best_candidate);
    }
    match best {
        Some((_, m)) => {
            if m.score_bp >= accept {
                Some(m)
            } else {
                None
            }
        },
        None => None,
    }
}

/// Whether the anchor lines numbered in `found` stand in the window of `len` lines from `start`
/// on, in their order: the ones before line `g` of the anchor counted from the window's first
/// line, the ones behind the lines that the window lacks or has more counted from its last one.
pub open spec fn finds(
    anchor: AnchorView,
    lines: Seq<Seq<u8>>,
    start: int,
    len: int,
    g: int,
    found: Set<int>,
) -> bool {
    let k = anchor.line_hashes.len() as int;
    &&& found.finite()
    &&& 0 <= g <= k
    &&& g <= len
    &&& forall|i: int| #[trigger]
        found.contains(i) ==> 0 <= i < k && {
            ||| i < g && text::hash_of(anchor.line_hashes[i]) == Some(
                lines::line_hash(lines[start + i]),
            )
            ||| g <= i && g <= i + len - k && text::hash_of(anchor.line_hashes[i]) == Some(
                lines::line_hash(lines[start + len - (k - i)]),
            )
        }
}

/// What it is worth to find `count` of an anchor's lines in the window of `len` lines from
/// `start` on: up to 7000 points for the lines, and 1500 for each side that is unchanged.
pub open spec fn worth(
    anchor: AnchorView,
    lines: Seq<Seq<u8>>,
    start: int,
    len: int,
    count: int,
) -> int {
    7000 * count / (anchor.line_hashes.len() as int) + (if text::hash_of(anchor.ctx_before) == Some(
        lines::before_hash(lines, start),
    ) {
        1500int
    } else {
        0
    }) + (if text::hash_of(anchor.ctx_after) == Some(lines::after_hash(lines, start + len)) {
        1500int
    } else {
        0
    })
}

proof fn lemma_hits_cover(
    wanted: Seq<Option<u64>>,
    actual: Seq<u64>,
    w: int,
    a: int,
    len: int,
    found: Set<int>,
)
    requires
        0 <= len,
        found.finite(),
        forall|i: int| #[trigger]
            found.contains(i) ==> w <= i < w + len && wanted[i] == Some(actual[a + i - w]),
    ensures
        found.len() <= hits(wanted, actual, w, a, len),
    decreases len,
{
    if len == 0 {
        assert(found =~= Set::empty());
    } else {
        let last = w + len - 1;
        lemma_hits_cover(wanted, actual, w, a, len - 1, found.remove(last));
    }
}

proof fn lemma_hits_set(wanted: Seq<Option<u64>>, actual: Seq<u64>, w: int, a: int, len: int) -> (found:
    Set<int>)
    requires
        0 <= len,
    ensures
        found.finite(),
        found.len() == hits(wanted, actual, w, a, len),
        forall|i: int| #[trigger]
            found.contains(i) ==> w <= i < w + len && wanted[i] == Some(actual[a + i - w]),
    decreases len,
{
    if len == 0 {
        Set::empty()
    } else {
        let rest = lemma_hits_set(wanted, actual, w, a, len - 1);
        if hit(wanted[w + len - 1], actual[a + len - 1]) {
            rest.insert(w + len - 1)
        } else {
            rest
        }
    }
}

proof fn lemma_gap_cover(
    anchor: AnchorView,
    lines: Seq<Seq<u8>>,
    start: int,
    d: int,
    g: int,
    found: Set<int>,
)
    requires
        finds(anchor, lines, start, anchor.line_hashes.len() + d, g, found),
        0 <= start,
        0 <= anchor.line_hashes.len() + d,
        start + anchor.line_hashes.len() + d <= lines.len(),
    ensures
        found.len() <= gap_hits(wanted_hashes(anchor), line_hashes(lines), start, d, g),
{
    let k = anchor.line_hashes.len() as int;
    let wanted = wanted_hashes(anchor);
    let actual = line_hashes(lines);
    let low = |i: int| i < g;
    let front = found.filter(low);
    let back = found.difference(front);
    found.lemma_len_filter(low);
    assert(found =~= front.union(back));
    vstd::set_lib::lemma_len_union(front, back);
    assert forall|i: int| #[trigger] front.contains(i) implies 0 <= i < g && wanted[i] == Some(
        actual[start + i],
    ) by {
        assert(found.contains(i));
    }
    lemma_hits_cover(wanted, actual, 0, start, g, front);
    assert forall|i: int| #[trigger] back.contains(i) implies g <= i < k && g <= i + d && wanted[i]
        == Some(actual[start + i + d]) by {
        assert(found.contains(i));
        assert(start + (k + d) - (k - i) == start + i + d);
    }
    if d >= 0 {
        lemma_hits_cover(wanted, actual, g, start + g + d, k - g, back);
    } else {
        lemma_hits_cover(wanted, actual, g - d, start + g, k + d - g, back);
    }
}

proof fn lemma_best_gap_reached(
    wanted: Seq<Option<u64>>,
    actual: Seq<u64>,
    start: int,
    d: int,
    n: int,
) -> (g: int)
    requires
        0 <= n,
    ensures
        0 <= g <= n,
        best_gap(wanted, actual, start, d, n) == gap_hits(wanted, actual, start, d, g),
    decreases n,
{
    if n > 0 && best_gap(wanted, actual, start, d, n - 1) >= gap_hits(wanted, actual, start, d, n) {
        lemma_best_gap_reached(wanted, actual, start, d, n - 1)
    } else {
        n
    }
}

proof fn lemma_best_of_all(
    anchor: AnchorView,
    lines: Seq<Seq<u8>>,
    expected: int,
    c: Candidate,
) -> (b: Candidate)
    requires
        is_candidate(anchor.line_hashes.len() as int, lines.len() as int, c),
    ensures
        is_best(anchor, lines, expected, b),
        b == choose|c: Candidate| is_best(anchor, lines, expected, c),
        b == c || precedes(rank(anchor, lines, expected, b), rank(anchor, lines, expected, c)),
{
    let k = anchor.line_hashes.len() as int;
    let n = lines.len() as int;
    let best = lemma_scan_exists(anchor, lines, expected, MAX_INTERNAL_DRIFT + 1, 0);
    lemma_scan_end(anchor, lines, expected, best);
    assert(scanned(k, n, MAX_INTERNAL_DRIFT + 1, 0, c));
    best->0
}

/// No window that is up to two lines shorter or longer than the anchor is worth more than the
/// match, whichever of the anchor's lines are looked for in it. Of windows that are worth the
/// same the match is the one closest to the expected place, then the one closest to the
/// anchor's length, then the first, then the shorter. There is no match only if no window is
/// worth 6000 points, or 8000 for an anchor of one or two lines.
pub proof fn lemma_match_beats_every_window(
    anchor: AnchorView,
    lines: Seq<Seq<u8>>,
    expected: int,
    start: int,
    len: int,
    g: int,
    found: Set<int>,
)
    requires
        anchor.line_hashes.len() > 0,
        lines.len() * anchor.line_hashes.len() <= 5_000_000,
        -2 <= len - anchor.line_hashes.len() <= 2,
        1 <= len,
        0 <= start,
        start + len <= lines.len(),
        finds(anchor, lines, start, len, g, found),
    ensures
        ({
            let k = anchor.line_hashes.len() as int;
            let value = worth(anchor, lines, start, len, found.len() as int);
            let accepted = if k <= 2 {
                8000int
            } else {
                6000
            };
            match match_of(anchor, lines, expected) {
                None => value < accepted,
                Some((s, l, points)) => {
                    let off = if s >= expected {
                        s - expected
                    } else {
                        expected - s
                    };
                    let other = if start >= expected {
                        start - expected
                    } else {
                        expected - start
                    };
                    let drift = if l >= k {
                        l - k
                    } else {
                        k - l
                    };
                    let other_drift = if len >= k {
                        len - k
                    } else {
                        k - len
                    };
                    &&& points >= accepted
                    &&& points >= value
                    &&& points == value ==> {
                        ||| off < other
                        ||| off == other && drift < other_drift
                        ||| off == other && drift == other_drift && s < start
                        ||| off == other && drift == other_drift && s == start && l <= len
                    }
                },
            }
        }),
{
    let k = anchor.line_hashes.len() as int;
    let n = lines.len() as int;
    let d = len - k;
    let here = Candidate { d, start };
    let wanted = wanted_hashes(anchor);
    let actual = line_hashes(lines);
    lemma_gap_cover(anchor, lines, start, d, g, found);
    lemma_alignment_bounds(wanted, actual, start, d, head_len(k, d));
    let matched = alignment(wanted, actual, start, d);
    assert(found.len() <= matched);
    let count = found.len() as int;
    assert(7000 * count / k <= 7000 * matched / k) by (nonlinear_arith)
        requires
            0 <= count <= matched,
            0 < k,
    ;
    assert(score(anchor, lines, here) >= worth(anchor, lines, start, len, found.len() as int));
    let b = lemma_best_of_all(anchor, lines, expected, here);
    assert(within_budget(k, n)) by {
        assert(n * k <= 5_000_000 && n > 0);
    }
}

/// A match is real: so many of the anchor's lines stand in it, in their order, with at most
/// one run of up to two lines more or less between them, as its score says.
pub proof fn lemma_match_is_found(anchor: AnchorView, lines: Seq<Seq<u8>>, expected: int) -> (at: (
    int,
    Set<int>,
))
    requires
        match_of(anchor, lines, expected) is Some,
    ensures
        match_of(anchor, lines, expected) matches Some((start, len, points)) && ({
            let k = anchor.line_hashes.len() as int;
            let (g, found) = at;
            &&& k > 0
            &&& lines.len() * k <= 5_000_000
            &&& -2 <= len - k <= 2
            &&& 1 <= len
            &&& 0 <= start
            &&& start + len <= lines.len()
            &&& finds(anchor, lines, start, len, g, found)
            &&& points == worth(anchor, lines, start, len, found.len() as int)
            &&& points >= if k <= 2 {
                8000int
            } else {
                6000
            }
        }),
{
    let k = anchor.line_hashes.len() as int;
    let c = choose|c: Candidate| is_best(anchor, lines, expected, c);
    let wanted = wanted_hashes(anchor);
    let actual = line_hashes(lines);
    let (start, d) = (c.start, c.d);
    let g = lemma_best_gap_reached(wanted, actual, start, d, head_len(k, d));
    let front = lemma_hits_set(wanted, actual, 0, start, g);
    let back = if d >= 0 {
        lemma_hits_set(wanted, actual, g, start + g + d, k - g)
    } else {
        lemma_hits_set(wanted, actual, g - d, start + g, k + d - g)
    };
    let found = front.union(back);
    assert(front.disjoint(back));
    vstd::set_lib::lemma_set_disjoint_lens(front, back);
    assert(front + back == found);
    assert forall|i: int| #[trigger] found.contains(i) implies 0 <= i < k && {
        ||| i < g && text::hash_of(anchor.line_hashes[i]) == Some(lines::line_hash(lines[start + i]))
        ||| g <= i && g <= i + d && text::hash_of(anchor.line_hashes[i]) == Some(
            lines::line_hash(lines[start + (k + d) - (k - i)]),
        )
    } by {
        if front.contains(i) {
            assert(wanted[i] == text::hash_of(anchor.line_hashes[i]));
            assert(actual[start + i] == lines::line_hash(lines[start + i]));
        } else {
            assert(back.contains(i));
            assert(wanted[i] == text::hash_of(anchor.line_hashes[i]));
            assert(actual[start + i + d] == lines::line_hash(lines[start + i + d]));
            assert(start + (k + d) - (k - i) == start + i + d);
        }
    }
    (g, found)
}

/// Where a line stands after `m` lines from `at` on gave way to others.
proof fn lemma_line_after(
    before: Seq<Seq<u8>>,
    at: int,
    m: int,
    others: Seq<Seq<u8>>,
    i: int,
)
    requires
        0 <= at,
        0 <= m,
        at + m <= before.len(),
        0 <= i < before.len(),
    ensures
        ({
            let after = before.take(at) + others + before.skip(at + m);
            &&& i < at ==> after[i] == before[i]
            &&& at + m <= i ==> after[i + others.len() - m] == before[i]
        }),
{
    let after = before.take(at) + others + before.skip(at + m);
    if at + m <= i {
        assert(after[i + others.len() - m] == before.skip(at + m)[i - (at + m)]);
    }
}

/// An edit inside a span leaves what is hashed on both sides of it alone.
proof fn lemma_sides_kept(
    before: Seq<Seq<u8>>,
    a: int,
    k: int,
    g: int,
    m: int,
    others: Seq<Seq<u8>>,
)
    requires
        0 <= a,
        0 <= g,
        0 <= m,
        g + m <= k,
        a + k <= before.len(),
    ensures
        ({
            let after = before.take(a + g) + others + before.skip(a + g + m);
            &&& after.len() == before.len() + others.len() - m
            &&& lines::before_hash(after, a) == lines::before_hash(before, a)
            &&& lines::after_hash(after, a + k + others.len() - m) == lines::after_hash(
                before,
                a + k,
            )
        }),
{
    let after = before.take(a + g) + others + before.skip(a + g + m);
    let d = others.len() - m;
    let lo = if a >= lines::CTX_LINES {
        a - lines::CTX_LINES
    } else {
        0
    };
    assert(after.subrange(lo, a) =~= before.subrange(lo, a));
    let end = a + k;
    let hi = if end + lines::CTX_LINES <= before.len() {
        end + lines::CTX_LINES
    } else {
        before.len() as int
    };
    let x = after.subrange(end + d, hi + d);
    let y = before.subrange(end, hi);
    assert forall|i: int| 0 <= i < hi - end implies x[i] == y[i] by {
        lemma_line_after(before, a + g, m, others, end + i);
    }
    assert(x =~= y);
}

/// An anchor whose lines were edited in one place is found again in what is left of them. The
/// anchor describes the lines `a..a + k` of `before`; behind the first `g` of them, `m` lines
/// gave way to others, at most two more or fewer; every other line of the file stayed. The
/// match is worth at least the lines that are left and both sides.
pub proof fn lemma_edited_span_found(
    anchor: AnchorView,
    before: Seq<Seq<u8>>,
    a: int,
    g: int,
    m: int,
    others: Seq<Seq<u8>>,
    expected: int,
)
    requires
        anchor.line_hashes.len() > 0,
        0 <= a,
        a + anchor.line_hashes.len() <= before.len(),
        forall|i: int|
            0 <= i < anchor.line_hashes.len() ==> text::hash_of(#[trigger] anchor.line_hashes[i])
                == Some(lines::line_hash(before[a + i])),
        text::hash_of(anchor.ctx_before) == Some(lines::before_hash(before, a)),
        text::hash_of(anchor.ctx_after) == Some(
            lines::after_hash(before, a + anchor.line_hashes.len()),
        ),
        0 <= g,
        0 <= m,
        g + m <= anchor.line_hashes.len(),
        -2 <= others.len() - m <= 2,
        1 <= anchor.line_hashes.len() + others.len() - m,
        (before.len() + others.len() - m) * anchor.line_hashes.len() <= 5_000_000,
    ensures
        ({
            let k = anchor.line_hashes.len() as int;
            let after = before.take(a + g) + others + before.skip(a + g + m);
            let value = 7000 * (k - m) / k + 3000;
            let accepted = if k <= 2 {
                8000int
            } else {
                6000
            };
            &&& value >= accepted ==> (match_of(anchor, after, expected) matches Some(
                (start, len, points),
            ) && points >= value)
            &&& m == 0 ==> (match_of(anchor, after, expected) matches Some((start, len, points))
                && points == 10_000)
        }),
{
    let k = anchor.line_hashes.len() as int;
    let after = before.take(a + g) + others + before.skip(a + g + m);
    let d = others.len() - m;
    let len = k + d;
    let left = vstd::set_lib::set_int_range(0, g);
    let right = vstd::set_lib::set_int_range(g + m, k);
    let found = left + right;
    vstd::set_lib::lemma_int_range(0, g);
    vstd::set_lib::lemma_int_range(g + m, k);
    assert(left.disjoint(right));
    vstd::set_lib::lemma_set_disjoint_lens(left, right);
    lemma_sides_kept(before, a, k, g, m, others);
    assert forall|i: int| #[trigger] found.contains(i) implies 0 <= i < k && {
        ||| i < g && text::hash_of(anchor.line_hashes[i]) == Some(lines::line_hash(after[a + i]))
        ||| g <= i && g <= i + len - k && text::hash_of(anchor.line_hashes[i]) == Some(
            lines::line_hash(after[a + len - (k - i)]),
        )
    } by {
        lemma_line_after(before, a + g, m, others, a + i);
        assert(a + len - (k - i) == a + i + d);
        assert(text::hash_of(anchor.line_hashes[i]) == Some(lines::line_hash(before[a + i])));
    }
    assert(found.len() == k - m);
    lemma_match_beats_every_window(anchor, after, expected, a, len, g, found);
    lemma_match_bounds(anchor, after, expected);
    if m == 0 {
        assert(7000 * k / k == 7000) by (nonlinear_arith)
            requires
                k > 0,
        ;
    }
}

/// An alignment finds as many wanted lines as can be found in the window in their order, with at
/// most one gap: no choice of lines beats it, and some choice reaches it.
pub proof fn lemma_alignment_is_best(
    wanted: Seq<Option<u64>>,
    actual: Seq<u64>,
    start: int,
    d: int,
    g: int,
    found: Set<int>,
) -> (at: (int, Set<int>))
    requires
        0 <= start,
        0 <= wanted.len() + d,
        start + wanted.len() + d <= actual.len(),
    ensures
        ({
            let k = wanted.len() as int;
            let fits = |g: int, found: Set<int>|
                {
                    &&& found.finite()
                    &&& 0 <= g <= k
                    &&& g <= k + d
                    &&& forall|i: int| #[trigger]
                        found.contains(i) ==> 0 <= i < k && {
                            ||| i < g && wanted[i] == Some(actual[start + i])
                            ||| g <= i && g <= i + d && wanted[i] == Some(actual[start + i + d])
                        }
                };
            &&& fits(g, found) ==> found.len() <= alignment(wanted, actual, start, d)
            &&& fits(at.0, at.1)
            &&& at.1.len() == alignment(wanted, actual, start, d)
        }),
{
    let k = wanted.len() as int;
    let head = head_len(k, d);
    if found.finite() && 0 <= g <= k && g <= k + d && (forall|i: int| #[trigger]
        found.contains(i) ==> 0 <= i < k && {
            ||| i < g && wanted[i] == Some(actual[start + i])
            ||| g <= i && g <= i + d && wanted[i] == Some(actual[start + i + d])
        }) {
        let low = |i: int| i < g;
        let front = found.filter(low);
        let back = found.difference(front);
        found.lemma_len_filter(low);
        assert(found =~= front.union(back));
        vstd::set_lib::lemma_len_union(front, back);
        lemma_hits_cover(wanted, actual, 0, start, g, front);
        if d >= 0 {
            lemma_hits_cover(wanted, actual, g, start + g + d, k - g, back);
        } else {
            lemma_hits_cover(wanted, actual, g - d, start + g, k + d - g, back);
        }
        lemma_alignment_bounds(wanted, actual, start, d, head);
        assert(found.len() <= gap_hits(wanted, actual, start, d, g));
    }
    let best = lemma_best_gap_reached(wanted, actual, start, d, head);
    let front = lemma_hits_set(wanted, actual, 0, start, best);
    let back = if d >= 0 {
        lemma_hits_set(wanted, actual, best, start + best + d, k - best)
    } else {
        lemma_hits_set(wanted, actual, best - d, start + best, k + d - best)
    };
    assert(front.disjoint(back));
    vstd::set_lib::lemma_set_disjoint_lens(front, back);
    let all = front + back;
    assert forall|i: int| #[trigger] all.contains(i) implies 0 <= i < k && {
        ||| i < best && wanted[i] == Some(actual[start + i])
        ||| best <= i && best <= i + d && wanted[i] == Some(actual[start + i + d])
    } by {
        if !front.contains(i) {
            assert(back.contains(i));
        }
    }
    (best, all)
}

} // verus!
