//! Line hunks between two versions of a file, and what they do to a span of lines.

use vstd::prelude::*;

use std::ops::Range;

use crate::lines;
use crate::lines::split_lines;
use crate::segments;

verus! {

/// One change: the lines `before` of the old version gave way to the lines `after`
/// of the new one, both counted from zero.
#[derive(Debug)]
pub struct HunkRanges {
    pub before: Range<u32>,
    pub after: Range<u32>,
}

impl Clone for HunkRanges {
    fn clone(&self) -> (out: HunkRanges)
        ensures
            hunk_view(out) == hunk_view(*self),
    {
        HunkRanges {
            before: self.before.start..self.before.end,
            after: self.after.start..self.after.end,
        }
    }
}

/// A hunk as `(before start, before end, after start, after end)`.
pub open spec fn hunk_view(h: HunkRanges) -> (int, int, int, int) {
    (h.before.start as int, h.before.end as int, h.after.start as int, h.after.end as int)
}

/// The four bounds of each hunk.
pub open spec fn hunk_views(hunks: Seq<HunkRanges>) -> Seq<(int, int, int, int)> {
    hunks.map_values(|h: HunkRanges| hunk_view(h))
}

/// Lines gained, less lines lost, in the hunks that end at or above line `a`.
pub open spec fn delta_above(hunks: Seq<(int, int, int, int)>, a: int) -> int
    decreases hunks.len(),
{
    if hunks.len() == 0 {
        0
    } else {
        let h = hunks.last();
        delta_above(hunks.drop_last(), a) + if h.1 <= a {
            (h.3 - h.2) - (h.1 - h.0)
        } else {
            0
        }
    }
}

/// Whether some hunk changes a line of `a..b` or inserts between two of them.
pub open spec fn touches(hunks: Seq<(int, int, int, int)>, a: int, b: int) -> bool {
    exists|i: int| 0 <= i < hunks.len() && (#[trigger] hunks[i]).1 > a && hunks[i].0 < b
}

/// The hunks lie within both versions, in order and apart from each other.
pub open spec fn ordered(hunks: Seq<(int, int, int, int)>, before: int, after: int) -> bool {
    &&& forall|i: int|
        0 <= i < hunks.len() ==> {
            let h = #[trigger] hunks[i];
            0 <= h.0 <= h.1 <= before && 0 <= h.2 <= h.3 <= after
        }
    &&& forall|i: int, j: int|
        0 <= i < j < hunks.len() ==> (#[trigger] hunks[i]).1 < (#[trigger] hunks[j]).0
            && hunks[i].3 < hunks[j].2
}

/// Whether line `k` of the old version lies in a hunk.
pub open spec fn in_hunk(hunks: Seq<(int, int, int, int)>, k: int) -> bool {
    exists|i: int| 0 <= i < hunks.len() && (#[trigger] hunks[i]).0 <= k < hunks[i].1
}

/// Line `k` of `before` is found again in `after`, moved by what the hunks above it
/// gained and lost.
pub open spec fn kept<L>(
    before: Seq<L>,
    after: Seq<L>,
    hunks: Seq<(int, int, int, int)>,
    k: int,
) -> bool {
    let moved = k + delta_above(hunks, k);
    0 <= moved < after.len() && after[moved] == before[k]
}

/// The lines between hunk `i - 1` and hunk `i`, or the ends of the versions, are the same in
/// both versions.
pub open spec fn same_run<L>(
    before: Seq<L>,
    after: Seq<L>,
    hunks: Seq<(int, int, int, int)>,
    i: int,
) -> bool {
    let (p, q) = if i == 0 {
        (0int, 0int)
    } else {
        (hunks[i - 1].1, hunks[i - 1].3)
    };
    let (r, s) = if i == hunks.len() {
        (before.len() as int, after.len() as int)
    } else {
        (hunks[i].0, hunks[i].2)
    };
    before.subrange(p, r) == after.subrange(q, s)
}

/// The hunks turn `before` into `after`: they say where something changed, and the runs of
/// lines before, between and behind them are the same in both versions.
pub open spec fn edits<L>(
    before: Seq<L>,
    after: Seq<L>,
    hunks: Seq<(int, int, int, int)>,
) -> bool {
    &&& ordered(hunks, before.len() as int, after.len() as int)
    &&& forall|i: int| 0 <= i <= hunks.len() ==> #[trigger] same_run(before, after, hunks, i)
}

/// The lines of a file, each with the newline that ends it.
pub open spec fn ended_lines(bytes: Seq<u8>) -> Seq<Seq<u8>> {
    let pieces = segments::split(bytes, lines::NEWLINE);
    Seq::new(
        lines::lines_of(bytes).len(),
        |i: int| if i < pieces.len() - 1 { pieces[i].push(lines::NEWLINE) } else { pieces[i] },
    )
}

/// The hunks by which the histogram algorithm turns `old` into `new`.
pub uninterp spec fn histogram_hunks(old: Seq<u8>, new: Seq<u8>) -> Seq<(int, int, int, int)>;

/// How many lines two versions may have together to be compared. The histogram algorithm
/// addresses the places of repeated lines by 32-bit words, at most 124 for 33 places of a
/// line, so with this many lines the addresses do not run out.
pub const MAX_COMPARED_LINES: u32 = 0x4000_0000;

/// Whether two versions are small enough to be compared line by line: no more than
/// `MAX_COMPARED_LINES` lines together, and no more than a twentieth of the address space
/// each.
pub open spec fn comparable(old: Seq<u8>, new: Seq<u8>) -> bool {
    &&& lines::lines_of(old).len() + lines::lines_of(new).len() <= MAX_COMPARED_LINES
    &&& old.len() <= usize::MAX / 20
    &&& new.len() <= usize::MAX / 20
}

/// Whether two versions are small enough to be compared line by line.
pub fn can_compare(old: &[u8], new: &[u8]) -> (yes: bool)
    ensures
        yes == comparable(old@, new@),
{
    let limit: usize = usize::MAX / 20;
    if old.len() > limit || new.len() > limit {
        return false;
    }
    let before: usize = split_lines(old).len();
    let after: usize = split_lines(new).len();
    (before as u128) + (after as u128) <= MAX_COMPARED_LINES as u128
}

/// `imara_diff::Diff::compute` with the histogram algorithm over the newline-ended
/// lines of both versions (`InternedInput::new`), read out by `Diff::hunks`. The
/// hunks are a function of the two inputs and form an edit script that turns the
/// first into the second, in increasing order.
#[verifier::external_body]
fn diff(old: &[u8], new: &[u8]) -> (hunks: Vec<HunkRanges>)
    requires
        comparable(old@, new@),
    ensures
        hunk_views(hunks@) == histogram_hunks(old@, new@),
        edits(ended_lines(old@), ended_lines(new@), hunk_views(hunks@)),
{
    let input = imara_diff::InternedInput::new(old, new);
    let diff = imara_diff::Diff::compute(imara_diff::Algorithm::Histogram, &input);
    diff.hunks().map(|h| HunkRanges { before: h.before, after: h.after }).collect()
}

/// Hunks from the content of an old blob to `new_bytes`. `None` when the blob is
/// unreadable.
pub fn hunks_since(base: Option<&[u8]>, new_bytes: &[u8]) -> (hunks: Option<Vec<HunkRanges>>)
    requires
        base matches Some(old) ==> comparable(old@, new_bytes@),
    ensures
        match (base, hunks) {
            (Some(old), Some(h)) => hunk_views(h@) == histogram_hunks(old@, new_bytes@) && edits(
                lines::lines_of(old@),
                lines::lines_of(new_bytes@),
                hunk_views(h@),
            ),
            (None, None) => true,
            _ => false,
        },
{
    match base {
        Some(old) => {
            let hunks = diff(old, new_bytes);
            proof {
                lemma_edits_lines(old@, new_bytes@, hunk_views(hunks@));
            }
            Some(hunks)
        },
        None => None,
    }
}

/// Two newline-ended lines are equal only if the bare lines are.
proof fn lemma_ended_equal(x: Seq<u8>, i: int, y: Seq<u8>, j: int)
    requires
        0 <= i < lines::lines_of(x).len(),
        0 <= j < lines::lines_of(y).len(),
        ended_lines(x)[i] == ended_lines(y)[j],
    ensures
        lines::lines_of(x)[i] == lines::lines_of(y)[j],
{
    let p = segments::split(x, lines::NEWLINE);
    let q = segments::split(y, lines::NEWLINE);
    segments::lemma_split(x, lines::NEWLINE);
    segments::lemma_split(y, lines::NEWLINE);
    assert(lines::lines_of(x)[i] == p[i]);
    assert(lines::lines_of(y)[j] == q[j]);
    let e = ended_lines(x)[i];
    if i < p.len() - 1 && j < q.len() - 1 {
        assert(e.drop_last() =~= p[i]);
        assert(e.drop_last() =~= q[j]);
    } else if i < p.len() - 1 {
        assert(e[e.len() - 1] == lines::NEWLINE);
        assert(q[j].contains(lines::NEWLINE));
    } else if j < q.len() - 1 {
        assert(e[e.len() - 1] == lines::NEWLINE);
        assert(p[i].contains(lines::NEWLINE));
    }
}

proof fn lemma_edits_lines(old: Seq<u8>, new: Seq<u8>, hunks: Seq<(int, int, int, int)>)
    requires
        edits(ended_lines(old), ended_lines(new), hunks),
    ensures
        edits(lines::lines_of(old), lines::lines_of(new), hunks),
{
    let before = lines::lines_of(old);
    let after = lines::lines_of(new);
    let ended_before = ended_lines(old);
    let ended_after = ended_lines(new);
    assert(ordered(hunks, before.len() as int, after.len() as int));
    assert forall|i: int| 0 <= i <= hunks.len() implies #[trigger] same_run(
        before,
        after,
        hunks,
        i,
    ) by {
        assert(same_run(ended_before, ended_after, hunks, i));
        let (p, q) = if i == 0 {
            (0int, 0int)
        } else {
            (hunks[i - 1].1, hunks[i - 1].3)
        };
        let (r, s) = if i == hunks.len() {
            (before.len() as int, after.len() as int)
        } else {
            (hunks[i].0, hunks[i].2)
        };
        assert(0 <= p <= r <= before.len() && 0 <= q <= s <= after.len());
        assert(ended_before.subrange(p, r) == ended_after.subrange(q, s));
        assert(ended_before.subrange(p, r).len() == r - p);
        assert(ended_after.subrange(q, s).len() == s - q);
        assert forall|t: int| 0 <= t < r - p implies before.subrange(p, r)[t] == after.subrange(
            q,
            s,
        )[t] by {
            assert(ended_before.subrange(p, r)[t] == ended_after.subrange(q, s)[t]);
            lemma_ended_equal(old, p + t, new, q + t);
        }
        assert(before.subrange(p, r) =~= after.subrange(q, s));
    }
}

/// Net line delta contributed by hunks entirely above `a..b`, and whether any hunk
/// touches the span. An empty before-range is an insertion point `p`: `p <= a` pushes
/// the span down, `p >= b` is below it, anything between is an overlap.
pub fn classify_hunks(hunks: &[HunkRanges], a: u32, b: u32) -> (out: (i64, bool))
    requires
        forall|i: int|
            0 <= i < hunks@.len() && (#[trigger] hunks@[i]).before.end <= a
                ==> hunks@[i].before.start <= hunks@[i].before.end && hunks@[i].after.start
                <= hunks@[i].after.end,
        forall|n: int|
            0 <= n <= hunks@.len() ==> i64::MIN <= #[trigger] delta_above(
                hunk_views(hunks@).take(n),
                a as int,
            ) <= i64::MAX,
    ensures
        out.0 == delta_above(hunk_views(hunks@), a as int),
        out.1 == touches(hunk_views(hunks@), a as int, b as int),
{
    let ghost views = hunk_views(hunks@);
    let mut delta: i64 = 0;
    let mut overlap = false;
    let mut i: usize = 0;
    assert(views.take(0) =~= Seq::<(int, int, int, int)>::empty());
    while i < hunks.len()
        invariant
            i <= hunks@.len(),
            views == hunk_views(hunks@),
            forall|i: int|
                0 <= i < hunks@.len() && (#[trigger] hunks@[i]).before.end <= a
                    ==> hunks@[i].before.start <= hunks@[i].before.end && hunks@[i].after.start
                    <= hunks@[i].after.end,
            forall|n: int|
                0 <= n <= hunks@.len() ==> i64::MIN <= #[trigger] delta_above(
                    views.take(n),
                    a as int,
                ) <= i64::MAX,
            delta == delta_above(views.take(i as int), a as int),
            overlap == exists|j: int|
                0 <= j < i && (#[trigger] views[j]).1 > a && views[j].0 < b,
        decreases hunks@.len() - i,
    {
        let hunk = &hunks[i];
        assert(views[i as int] == hunk_view(hunks@[i as int]));
        assert(views.take(i + 1).drop_last() =~= views.take(i as int));
        assert(i64::MIN <= delta_above(views.take(i + 1), a as int) <= i64::MAX);
        if hunk.before.end <= a {
            delta = delta + ((hunk.after.end - hunk.after.start) as i64 - (hunk.before.end
                - hunk.before.start) as i64);
        } else if hunk.before.start < b {
            overlap = true;
        }
        i += 1;
    }
    assert(views.take(i as int) =~= views);
    (delta, overlap)
}

/// Ordered hunks move nothing further than either version is long.
pub proof fn lemma_delta_bound(
    hunks: Seq<(int, int, int, int)>,
    before: int,
    after: int,
    a: int,
)
    requires
        ordered(hunks, before, after),
        0 <= before,
        0 <= after,
    ensures
        -before <= delta_above(hunks, a) <= after,
        hunks.len() > 0 ==> -hunks.last().1 <= delta_above(hunks, a) <= hunks.last().3,
    decreases hunks.len(),
{
    if hunks.len() > 0 {
        let rest = hunks.drop_last();
        let last = hunks[hunks.len() - 1];
        assert forall|i: int| 0 <= i < rest.len() implies {
            let h = #[trigger] rest[i];
            0 <= h.0 <= h.1 <= before && 0 <= h.2 <= h.3 <= after
        } by {
            assert(rest[i] == hunks[i]);
        }
        lemma_delta_bound(rest, before, after, a);
        if rest.len() > 0 {
            assert(rest.last() == hunks[hunks.len() - 2]);
        }
    }
}

/// How many of the hunks end at or above line `k`.
proof fn lemma_hunks_above(hunks: Seq<(int, int, int, int)>, before: int, after: int, k: int) -> (i:
    int)
    requires
        ordered(hunks, before, after),
    ensures
        0 <= i <= hunks.len(),
        forall|j: int| 0 <= j < i ==> (#[trigger] hunks[j]).1 <= k,
        forall|j: int| i <= j < hunks.len() ==> (#[trigger] hunks[j]).1 > k,
    decreases hunks.len(),
{
    if hunks.len() == 0 {
        0
    } else if hunks[hunks.len() - 1].1 <= k {
        hunks.len() as int
    } else {
        let rest = hunks.drop_last();
        assert forall|j: int| 0 <= j < rest.len() implies rest[j] == #[trigger] hunks[j] by {}
        assert(ordered(rest, before, after)) by {
            assert forall|i: int, j: int| 0 <= i < j < rest.len() implies (#[trigger] rest[i]).1 < (
            #[trigger] rest[j]).0 && rest[i].3 < rest[j].2 by {
                assert(hunks[i].1 < hunks[j].0);
            }
        }
        lemma_hunks_above(rest, before, after, k)
    }
}

proof fn lemma_delta_from(
    hunks: Seq<(int, int, int, int)>,
    a: int,
    i: int,
    n: int,
)
    requires
        0 <= i <= n <= hunks.len(),
        forall|j: int| i <= j < hunks.len() ==> (#[trigger] hunks[j]).1 > a,
    ensures
        delta_above(hunks.take(n), a) == delta_above(hunks.take(i), a),
    decreases n - i,
{
    if n > i {
        lemma_delta_from(hunks, a, i, n - 1);
        assert(hunks.take(n).drop_last() =~= hunks.take(n - 1));
        assert(hunks.take(n).last() == hunks[n - 1]);
    }
}

/// Hunks that all end at or above line `a` move it by as much as the end of the last one.
proof fn lemma_delta_of_front<L>(
    before: Seq<L>,
    after: Seq<L>,
    hunks: Seq<(int, int, int, int)>,
    a: int,
    i: int,
)
    requires
        edits(before, after, hunks),
        0 <= i <= hunks.len(),
        forall|j: int| 0 <= j < i ==> (#[trigger] hunks[j]).1 <= a,
    ensures
        delta_above(hunks.take(i), a) == if i == 0 {
            0
        } else {
            hunks[i - 1].3 - hunks[i - 1].1
        },
    decreases i,
{
    if i > 0 {
        lemma_delta_of_front(before, after, hunks, a, i - 1);
        assert(hunks.take(i).drop_last() =~= hunks.take(i - 1));
        assert(hunks.take(i).last() == hunks[i - 1]);
        assert(same_run(before, after, hunks, i - 1));
        let h = hunks[i - 1];
        if i > 1 {
            let g = hunks[i - 2];
            assert(g.1 < h.0 && g.3 < h.2);
            assert(before.subrange(g.1, h.0).len() == after.subrange(g.3, h.2).len());
        } else {
            assert(before.subrange(0, h.0).len() == after.subrange(0, h.2).len());
        }
    }
}

/// Every line of a span that no hunk touches lies in no hunk, and moves as far as the first one.
pub proof fn lemma_delta_inside(hunks: Seq<(int, int, int, int)>, a: int, b: int, k: int)
    requires
        forall|i: int| 0 <= i < hunks.len() ==> (#[trigger] hunks[i]).0 <= hunks[i].1,
        !touches(hunks, a, b),
        a <= k < b,
    ensures
        delta_above(hunks, k) == delta_above(hunks, a),
        !in_hunk(hunks, k),
    decreases hunks.len(),
{
    if in_hunk(hunks, k) {
        let i = choose|i: int| 0 <= i < hunks.len() && (#[trigger] hunks[i]).0 <= k < hunks[i].1;
        assert(hunks[i].1 > a && hunks[i].0 < b);
        assert(touches(hunks, a, b));
    }
    if hunks.len() > 0 {
        let rest = hunks.drop_last();
        assert forall|i: int| 0 <= i < rest.len() implies (#[trigger] rest[i]).0 <= rest[i].1 by {
            assert(rest[i] == hunks[i]);
        }
        assert(!touches(rest, a, b)) by {
            if touches(rest, a, b) {
                let i = choose|i: int|
                    0 <= i < rest.len() && (#[trigger] rest[i]).1 > a && rest[i].0 < b;
                assert(hunks[i].1 > a && hunks[i].0 < b);
            }
        }
        lemma_delta_inside(rest, a, b, k);
        let last = hunks[hunks.len() - 1];
        assert(last.1 > a ==> last.0 >= b);
    }
}

/// A span such that every hunk ends at or above its first line, or begins behind its last
/// one, is found again, line for line, where the hunks above it moved it.
pub proof fn lemma_untouched_span<L>(
    before: Seq<L>,
    after: Seq<L>,
    hunks: Seq<(int, int, int, int)>,
    a: int,
    b: int,
)
    requires
        edits(before, after, hunks),
        forall|i: int|
            0 <= i < hunks.len() ==> (#[trigger] hunks[i]).1 <= a || b <= hunks[i].0,
        0 <= a < b <= before.len(),
    ensures
        0 <= a + delta_above(hunks, a),
        b + delta_above(hunks, a) <= after.len(),
        after.subrange(a + delta_above(hunks, a), b + delta_above(hunks, a)) == before.subrange(
            a,
            b,
        ),
{
    let d = delta_above(hunks, a);
    let n = hunks.len() as int;
    let i = lemma_hunks_above(hunks, before.len() as int, after.len() as int, a);
    lemma_delta_of_front(before, after, hunks, a, i);
    lemma_delta_from(hunks, a, i, n);
    assert(hunks.take(n) =~= hunks);
    assert(same_run(before, after, hunks, i));
    let (p, q) = if i == 0 {
        (0int, 0int)
    } else {
        (hunks[i - 1].1, hunks[i - 1].3)
    };
    let (r, s) = if i == n {
        (before.len() as int, after.len() as int)
    } else {
        (hunks[i].0, hunks[i].2)
    };
    assert(0 <= p <= a && b <= r <= before.len() && 0 <= q && s <= after.len());
    assert(q == p + d);
    if i > 0 && i < n {
        assert(hunks[i - 1].3 < hunks[i].2);
    }
    let run = before.subrange(p, r);
    let moved = after.subrange(q, s);
    assert(run.len() == r - p && moved.len() == s - q);
    assert forall|t: int| 0 <= t < b - a implies after.subrange(a + d, b + d)[t]
        == before.subrange(a, b)[t] by {
        assert(run[a - p + t] == before[a + t]);
        assert(moved[a - p + t] == after[a + d + t]);
    }
    assert(after.subrange(a + d, b + d) =~= before.subrange(a, b));
}

/// Every line that lies in no hunk is found again where the hunks above it moved it.
pub proof fn lemma_line_kept<L>(
    before: Seq<L>,
    after: Seq<L>,
    hunks: Seq<(int, int, int, int)>,
    k: int,
)
    requires
        edits(before, after, hunks),
        0 <= k < before.len(),
        forall|i: int| 0 <= i < hunks.len() ==> !((#[trigger] hunks[i]).0 <= k < hunks[i].1),
    ensures
        kept(before, after, hunks, k),
        0 <= k + delta_above(hunks, k) < after.len(),
        after[k + delta_above(hunks, k)] == before[k],
{
    lemma_untouched_span(before, after, hunks, k, k + 1);
    let d = delta_above(hunks, k);
    assert(after.subrange(k + d, k + 1 + d)[0] == before.subrange(k, k + 1)[0]);
}

/// A line is moved by as much as the end of the last hunk that ends at or above it.
pub proof fn lemma_moved_like_last_hunk<L>(
    before: Seq<L>,
    after: Seq<L>,
    hunks: Seq<(int, int, int, int)>,
    a: int,
    above: int,
)
    requires
        edits(before, after, hunks),
        0 <= above <= hunks.len(),
        forall|j: int| 0 <= j < above ==> (#[trigger] hunks[j]).1 <= a,
        forall|j: int| above <= j < hunks.len() ==> (#[trigger] hunks[j]).1 > a,
    ensures
        delta_above(hunks, a) == if above == 0 {
            0
        } else {
            hunks[above - 1].3 - hunks[above - 1].1
        },
{
    lemma_delta_of_front(before, after, hunks, a, above);
    lemma_delta_from(hunks, a, above, hunks.len() as int);
    assert(hunks.take(hunks.len() as int) =~= hunks);
}

/// What the hunks above a line gain and lose is added up over exactly the hunks that end at or
/// above it, and a span is touched by exactly the hunks that end behind its start and begin
/// before its end.
pub proof fn lemma_hunks_are_told_apart(hunks: Seq<(int, int, int, int)>, a: int, b: int)
    ensures
        delta_above(hunks, a) == hunks.filter(|h: (int, int, int, int)| h.1 <= a).fold_left(
            0int,
            |t: int, h: (int, int, int, int)| t + (h.3 - h.2) - (h.1 - h.0),
        ),
        !touches(hunks, a, b) <==> forall|i: int|
            0 <= i < hunks.len() ==> (#[trigger] hunks[i]).1 <= a || b <= hunks[i].0,
    decreases hunks.len(),
{
    reveal(Seq::filter);
    let above = |h: (int, int, int, int)| h.1 <= a;
    let gain = |t: int, h: (int, int, int, int)| t + (h.3 - h.2) - (h.1 - h.0);
    if hunks.len() > 0 {
        let rest = hunks.drop_last();
        lemma_hunks_are_told_apart(rest, a, b);
        let kept = rest.filter(above);
        if above(hunks.last()) {
            assert(hunks.filter(above) == kept.push(hunks.last()));
            assert(kept.push(hunks.last()).drop_last() =~= kept);
        }
    }
    if touches(hunks, a, b) {
        let i = choose|i: int| 0 <= i < hunks.len() && (#[trigger] hunks[i]).1 > a && hunks[i].0 < b;
        assert(!(hunks[i].1 <= a || b <= hunks[i].0));
    }
}

} // verus!
