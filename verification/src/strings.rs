//! Searching, replacing, splitting and trimming text.

use vstd::prelude::*;

use vstd::string::StringExecFns;

use crate::segments;
use crate::text::{chars_of, string_of};

verus! {

broadcast use vstd::string::group_string_axioms;

/// Whether `pat` stands in `s` from character `i` on.
pub open spec fn occurs_at(s: Seq<char>, pat: Seq<char>, i: int) -> bool {
    0 <= i && i + pat.len() <= s.len() && s.subrange(i, i + pat.len()) == pat
}

/// Whether `pat` stands anywhere in `s`.
pub open spec fn occurs(s: Seq<char>, pat: Seq<char>) -> bool {
    exists|i: int| occurs_at(s, pat, i)
}

/// `s` with every occurrence of `pat`, found from the left without overlap, replaced by
/// `with`.
pub open spec fn replaced(s: Seq<char>, pat: Seq<char>, with: Seq<char>) -> Seq<char>
    decreases s.len(),
{
    if s.len() == 0 {
        s
    } else if pat.len() > 0 && occurs_at(s, pat, 0) {
        with + replaced(s.skip(pat.len() as int), pat, with)
    } else {
        seq![s[0]] + replaced(s.skip(1), pat, with)
    }
}

fn matches_at(chars: &[char], pat: &[char], i: usize) -> (yes: bool)
    requires
        i <= chars@.len(),
    ensures
        yes == occurs_at(chars@, pat@, i as int),
{
    if chars.len() - i < pat.len() {
        return false;
    }
    let mut j: usize = 0;
    while j < pat.len()
        invariant
            i + pat@.len() <= chars@.len(),
            chars@.len() <= usize::MAX,
            j <= pat@.len(),
            forall|t: int| 0 <= t < j ==> chars@[i + t] == pat@[t],
        decreases pat@.len() - j,
    {
        if chars[i + j] != pat[j] {
            assert(chars@.subrange(i as int, i + pat@.len())[j as int] != pat@[j as int]);
            return false;
        }
        j += 1;
    }
    assert(chars@.subrange(i as int, i + pat@.len()) =~= pat@);
    true
}

/// `text` with every occurrence of `pat`, found from the left without overlap, replaced
/// by `with`.
pub fn replace(text: &str, pat: &str, with: &str) -> (out: String)
    requires
        pat@.len() > 0,
    ensures
        out@ == replaced(text@, pat@, with@),
{
    let chars = chars_of(text);
    let pattern = chars_of(pat);
    let mut out = String::new();
    let mut i: usize = 0;
    assert(chars@.skip(0) =~= chars@);
    assert(out@ + replaced(chars@, pat@, with@) =~= replaced(chars@, pat@, with@));
    while i < chars.len()
        invariant
            chars@ == text@,
            pattern@ == pat@,
            pat@.len() > 0,
            i <= chars@.len(),
            replaced(chars@, pat@, with@) == out@ + replaced(chars@.skip(i as int), pat@, with@),
        decreases chars@.len() - i,
    {
        let ghost rest = chars@.skip(i as int);
        let ghost before = out@;
        let found = matches_at(chars.as_slice(), pattern.as_slice(), i);
        assert(found == occurs_at(rest, pat@, 0)) by {
            if i + pat@.len() <= chars@.len() {
                assert(rest.subrange(0, pat@.len() as int) =~= chars@.subrange(
                    i as int,
                    i + pat@.len(),
                ));
            }
        }
        if found {
            out.append(with);
            assert(rest.skip(pat@.len() as int) =~= chars@.skip(i + pat@.len()));
            assert(out@ + replaced(chars@.skip(i + pat@.len()), pat@, with@) =~= before
                + replaced(rest, pat@, with@));
            i += pattern.len();
        } else {
            out.push(chars[i]);
            assert(rest[0] == chars@[i as int]);
            assert(rest.skip(1) =~= chars@.skip(i + 1));
            assert(out@ + replaced(chars@.skip(i + 1), pat@, with@) =~= before + replaced(
                rest,
                pat@,
                with@,
            ));
            i += 1;
        }
    }
    assert(chars@.skip(i as int) =~= Seq::<char>::empty());
    assert(out@ + Seq::<char>::empty() =~= out@);
    out
}

/// Whether a pattern and its replacement are an opening delimiter and its harmless form:
/// the pattern begins with `<`, which occurs nowhere else in either, and the replacement
/// begins with `&`, which does not occur in the pattern.
pub open spec fn is_escape(pat: Seq<char>, with: Seq<char>) -> bool {
    &&& pat.len() > 0
    &&& pat[0] == '<'
    &&& forall|i: int| 0 < i < pat.len() ==> (#[trigger] pat[i]) != '<' && pat[i] != '&'
    &&& with.len() > 0
    &&& with[0] == '&'
    &&& forall|i: int| 0 <= i < with.len() ==> (#[trigger] with[i]) != '<'
}

/// A run of characters without `&` at the front of an escaped text was there before.
proof fn lemma_prefix_survives(
    s: Seq<char>,
    pat: Seq<char>,
    with: Seq<char>,
    x: Seq<char>,
)
    requires
        is_escape(pat, with),
        forall|i: int| 0 <= i < x.len() ==> (#[trigger] x[i]) != '&',
        occurs_at(replaced(s, pat, with), x, 0),
    ensures
        occurs_at(s, x, 0),
    decreases s.len(),
{
    let out = replaced(s, pat, with);
    if x.len() == 0 {
        assert(s.subrange(0, 0) =~= x);
    } else if s.len() > 0 {
        assert(out.subrange(0, x.len() as int)[0] == x[0]);
        if occurs_at(s, pat, 0) {
            assert(out[0] == with[0]);
        } else {
            let rest = s.skip(1);
            let tail = x.skip(1);
            assert(out.skip(1) =~= replaced(rest, pat, with));
            assert(replaced(rest, pat, with).subrange(0, tail.len() as int) =~= out.subrange(
                0,
                x.len() as int,
            ).skip(1));
            assert forall|i: int| 0 <= i < tail.len() implies (#[trigger] tail[i]) != '&' by {
                assert(tail[i] == x[i + 1]);
            }
            lemma_prefix_survives(rest, pat, with, tail);
            assert(s.subrange(0, x.len() as int) =~= x) by {
                assert forall|i: int| 0 <= i < x.len() implies s[i] == x[i] by {
                    if i > 0 {
                        assert(rest.subrange(0, tail.len() as int)[i - 1] == tail[i - 1]);
                    }
                }
            }
        }
    }
}

/// Escaping one delimiter brings no delimiter in, and leaves none of its own.
pub proof fn lemma_escape_removes(
    s: Seq<char>,
    pat: Seq<char>,
    with: Seq<char>,
    other: Seq<char>,
    i: int,
)
    requires
        is_escape(pat, with),
        is_escape(other, with),
        occurs_at(replaced(s, pat, with), other, i),
    ensures
        other != pat,
        occurs(s, other),
    decreases s.len(),
{
    let out = replaced(s, pat, with);
    assert(out.subrange(i, i + other.len())[0] == '<');
    assert(out[i] == '<');
    if s.len() > 0 {
        if occurs_at(s, pat, 0) {
            let rest = s.skip(pat.len() as int);
            assert(i >= with.len()) by {
                if i < with.len() {
                    assert(out[i] == with[i]);
                }
            }
            let j = i - with.len();
            assert(replaced(rest, pat, with).subrange(j, j + other.len()) =~= out.subrange(
                i,
                i + other.len(),
            ));
            lemma_escape_removes(rest, pat, with, other, j);
            let k = choose|k: int| occurs_at(rest, other, k);
            assert(s.subrange(k + pat.len(), k + pat.len() + other.len()) =~= rest.subrange(
                k,
                k + other.len(),
            ));
            assert(occurs_at(s, other, k + pat.len()));
        } else if i == 0 {
            let rest = s.skip(1);
            let tail = other.skip(1);
            assert(out.skip(1) =~= replaced(rest, pat, with));
            assert(replaced(rest, pat, with).subrange(0, tail.len() as int) =~= out.subrange(
                0,
                other.len() as int,
            ).skip(1));
            assert forall|t: int| 0 <= t < tail.len() implies (#[trigger] tail[t]) != '&' by {
                assert(tail[t] == other[t + 1]);
            }
            lemma_prefix_survives(rest, pat, with, tail);
            assert(s.subrange(0, other.len() as int) =~= other) by {
                assert forall|t: int| 0 <= t < other.len() implies s[t] == other[t] by {
                    if t > 0 {
                        assert(rest.subrange(0, tail.len() as int)[t - 1] == tail[t - 1]);
                    } else {
                        assert(out[0] == s[0]);
                    }
                }
            }
            assert(occurs_at(s, other, 0));
        } else {
            let rest = s.skip(1);
            let j = i - 1;
            assert(out.skip(1) =~= replaced(rest, pat, with));
            assert(replaced(rest, pat, with).subrange(j, j + other.len()) =~= out.subrange(
                i,
                i + other.len(),
            ));
            lemma_escape_removes(rest, pat, with, other, j);
            let k = choose|k: int| occurs_at(rest, other, k);
            assert(s.subrange(k + 1, k + 1 + other.len()) =~= rest.subrange(k, k + other.len()));
            assert(occurs_at(s, other, k + 1));
        }
    }
}

/// A run without `<` is copied as it stands.
proof fn lemma_copied(x: Seq<char>, y: Seq<char>, pat: Seq<char>, with: Seq<char>)
    requires
        is_escape(pat, with),
        forall|i: int| 0 <= i < x.len() ==> (#[trigger] x[i]) != '<',
    ensures
        replaced(x + y, pat, with) == x + replaced(y, pat, with),
    decreases x.len(),
{
    if x.len() == 0 {
        assert(x + y =~= y);
        assert(x + replaced(y, pat, with) =~= replaced(y, pat, with));
    } else {
        let s = x + y;
        assert(!occurs_at(s, pat, 0)) by {
            if occurs_at(s, pat, 0) {
                assert(s.subrange(0, pat.len() as int)[0] == x[0]);
            }
        }
        let tail = x.skip(1);
        assert forall|i: int| 0 <= i < tail.len() implies (#[trigger] tail[i]) != '<' by {
            assert(tail[i] == x[i + 1]);
        }
        lemma_copied(tail, y, pat, with);
        assert(s.skip(1) =~= tail + y);
        assert(seq![x[0]] + (tail + replaced(y, pat, with)) =~= x + replaced(y, pat, with));
    }
}

/// Whether no text begins with both.
pub open spec fn apart(p: Seq<char>, q: Seq<char>) -> bool {
    exists|j: int| 0 <= j < p.len() && j < q.len() && p[j] != #[trigger] q[j]
}

/// An occurrence of another delimiter is copied as it stands.
proof fn lemma_other_kept(
    p: Seq<char>,
    rest: Seq<char>,
    pat: Seq<char>,
    with: Seq<char>,
    own: Seq<char>,
)
    requires
        is_escape(pat, with),
        is_escape(p, own),
        apart(p, pat),
    ensures
        replaced(p + rest, pat, with) == p + replaced(rest, pat, with),
{
    let s = p + rest;
    assert(!occurs_at(s, pat, 0)) by {
        if occurs_at(s, pat, 0) {
            let j = choose|j: int| 0 <= j < p.len() && j < pat.len() && p[j] != #[trigger] pat[j];
            assert(s.subrange(0, pat.len() as int)[j] == p[j]);
        }
    }
    let tail = p.skip(1);
    assert forall|i: int| 0 <= i < tail.len() implies (#[trigger] tail[i]) != '<' by {
        assert(tail[i] == p[i + 1]);
    }
    lemma_copied(tail, rest, pat, with);
    assert(s.skip(1) =~= tail + rest);
    assert(seq![p[0]] + (tail + replaced(rest, pat, with)) =~= p + replaced(rest, pat, with));
}

/// A delimiter at the front of an escaped text was at the front before.
proof fn lemma_front_survives(
    s: Seq<char>,
    pat: Seq<char>,
    with: Seq<char>,
    other: Seq<char>,
)
    requires
        is_escape(pat, with),
        is_escape(other, with),
        occurs_at(replaced(s, pat, with), other, 0),
    ensures
        occurs_at(s, other, 0),
{
    assert forall|i: int| 0 <= i < other.len() implies (#[trigger] other[i]) != '&' by {}
    lemma_prefix_survives(s, pat, with, other);
}

/// Two delimiters that no text begins with both of can be escaped in either order.
pub proof fn lemma_escapes_commute(
    s: Seq<char>,
    p: Seq<char>,
    v: Seq<char>,
    q: Seq<char>,
    w: Seq<char>,
)
    requires
        is_escape(p, v),
        is_escape(q, w),
        apart(p, q),
    ensures
        replaced(replaced(s, p, v), q, w) == replaced(replaced(s, q, w), p, v),
    decreases s.len(),
{
    assert(apart(q, p)) by {
        let j = choose|j: int| 0 <= j < p.len() && j < q.len() && p[j] != #[trigger] q[j];
        assert(q[j] != p[j]);
    }
    if s.len() == 0 {
        assert(replaced(s, p, v) == s);
        assert(replaced(s, q, w) == s);
    } else if occurs_at(s, p, 0) {
        let rest = s.skip(p.len() as int);
        assert(s =~= p + rest);
        lemma_other_kept(p, rest, q, w, v);
        lemma_copied(v, replaced(rest, p, v), q, w);
        lemma_escapes_commute(rest, p, v, q, w);
        let t = p + replaced(rest, q, w);
        assert(t.subrange(0, p.len() as int) =~= p);
        assert(t.skip(p.len() as int) =~= replaced(rest, q, w));
    } else if occurs_at(s, q, 0) {
        let rest = s.skip(q.len() as int);
        assert(s =~= q + rest);
        lemma_other_kept(q, rest, p, v, w);
        lemma_copied(w, replaced(rest, q, w), p, v);
        lemma_escapes_commute(rest, p, v, q, w);
        let t = q + replaced(rest, p, v);
        assert(t.subrange(0, q.len() as int) =~= q);
        assert(t.skip(q.len() as int) =~= replaced(rest, p, v));
    } else {
        let rest = s.skip(1);
        lemma_escapes_commute(rest, p, v, q, w);
        let t = replaced(s, p, v);
        let u = replaced(s, q, w);
        if occurs_at(t, q, 0) {
            lemma_front_survives(s, p, v, q);
        }
        if occurs_at(u, p, 0) {
            lemma_front_survives(s, q, w, p);
        }
        assert(t.skip(1) =~= replaced(rest, p, v));
        assert(u.skip(1) =~= replaced(rest, q, w));
        assert(t[0] == s[0] && u[0] == s[0]);
    }
}

/// Whether `c` is white space by the Unicode property of that name.
pub open spec fn is_white(c: char) -> bool {
    let u = c as u32;
    ||| 9 <= u <= 13
    ||| u == 0x20
    ||| u == 0x85
    ||| u == 0xa0
    ||| u == 0x1680
    ||| 0x2000 <= u <= 0x200a
    ||| u == 0x2028
    ||| u == 0x2029
    ||| u == 0x202f
    ||| u == 0x205f
    ||| u == 0x3000
}

/// `char::is_whitespace` tells the characters that have the Unicode property
/// `White_Space`.
pub assume_specification[ char::is_whitespace ](c: char) -> (yes: bool)
    ensures
        yes == is_white(c),
;

/// `s` without white space at the end.
pub open spec fn trimmed_end(s: Seq<char>) -> Seq<char>
    decreases s.len(),
{
    if s.len() > 0 && is_white(s.last()) {
        trimmed_end(s.drop_last())
    } else {
        s
    }
}

/// `s` without white space at the start.
pub open spec fn trimmed_start(s: Seq<char>) -> Seq<char>
    decreases s.len(),
{
    if s.len() > 0 && is_white(s[0]) {
        trimmed_start(s.skip(1))
    } else {
        s
    }
}

/// `s` without white space at either end.
pub open spec fn trimmed(s: Seq<char>) -> Seq<char> {
    trimmed_end(trimmed_start(s))
}

/// The end of `chars[from..to]` without white space at its end.
pub fn trim_end(chars: &[char], from: usize, to: usize) -> (end: usize)
    requires
        from <= to <= chars@.len(),
    ensures
        from <= end <= to,
        chars@.subrange(from as int, end as int) == trimmed_end(
            chars@.subrange(from as int, to as int),
        ),
{
    let mut end: usize = to;
    while end > from && chars[end - 1].is_whitespace()
        invariant
            from <= end <= to <= chars@.len(),
            trimmed_end(chars@.subrange(from as int, to as int)) == trimmed_end(
                chars@.subrange(from as int, end as int),
            ),
        decreases end,
    {
        let ghost part = chars@.subrange(from as int, end as int);
        assert(part.last() == chars@[end - 1]);
        assert(part.drop_last() =~= chars@.subrange(from as int, end - 1));
        end -= 1;
    }
    proof {
        let part = chars@.subrange(from as int, end as int);
        if end > from {
            assert(part.last() == chars@[end - 1]);
        }
    }
    end
}

/// The start of `chars[from..to]` without white space at its start.
pub fn trim_start(chars: &[char], from: usize, to: usize) -> (start: usize)
    requires
        from <= to <= chars@.len(),
    ensures
        from <= start <= to,
        chars@.subrange(start as int, to as int) == trimmed_start(
            chars@.subrange(from as int, to as int),
        ),
{
    let mut start: usize = from;
    while start < to && chars[start].is_whitespace()
        invariant
            from <= start <= to <= chars@.len(),
            trimmed_start(chars@.subrange(from as int, to as int)) == trimmed_start(
                chars@.subrange(start as int, to as int),
            ),
        decreases to - start,
    {
        let ghost part = chars@.subrange(start as int, to as int);
        assert(part[0] == chars@[start as int]);
        assert(part.skip(1) =~= chars@.subrange(start + 1, to as int));
        start += 1;
    }
    proof {
        let part = chars@.subrange(start as int, to as int);
        if start < to {
            assert(part[0] == chars@[start as int]);
        }
    }
    start
}

/// The parts of `s` at the given ranges.
pub open spec fn parts_at(s: Seq<char>, ranges: Seq<(usize, usize)>) -> Seq<Seq<char>> {
    ranges.map_values(|r: (usize, usize)| s.subrange(r.0 as int, r.1 as int))
}

/// Whether every range lies in a text of `n` characters.
pub open spec fn ranges_in(ranges: Seq<(usize, usize)>, n: int) -> bool {
    forall|i: int| 0 <= i < ranges.len() ==> (#[trigger] ranges[i]).0 <= ranges[i].1 <= n
}

/// Where the pieces of `chars` between occurrences of `sep` lie; always at least one.
pub fn split_ranges(chars: &[char], sep: char) -> (out: Vec<(usize, usize)>)
    ensures
        ranges_in(out@, chars@.len() as int),
        parts_at(chars@, out@) == segments::split(chars@, sep),
{
    let mut out: Vec<(usize, usize)> = Vec::new();
    let mut start: usize = 0;
    let mut i: usize = 0;
    assert(chars@.take(0) =~= Seq::<char>::empty());
    assert(parts_at(chars@, out@).push(chars@.subrange(0, 0)) =~= segments::split(
        chars@.take(0),
        sep,
    ));
    while i < chars.len()
        invariant
            start <= i <= chars@.len(),
            ranges_in(out@, chars@.len() as int),
            parts_at(chars@, out@).push(chars@.subrange(start as int, i as int))
                == segments::split(chars@.take(i as int), sep),
        decreases chars@.len() - i,
    {
        let ghost pieces = segments::split(chars@.take(i as int), sep);
        let ghost before = parts_at(chars@, out@);
        assert(chars@.take(i + 1).drop_last() =~= chars@.take(i as int));
        assert(chars@.take(i + 1).last() == chars@[i as int]);
        if chars[i] == sep {
            out.push((start, i));
            assert(parts_at(chars@, out@) =~= before.push(
                chars@.subrange(start as int, i as int),
            ));
            start = i + 1;
            assert(chars@.subrange(start as int, i + 1) =~= Seq::<char>::empty());
        } else {
            assert(pieces.drop_last() =~= before);
            assert(pieces.last() == chars@.subrange(start as int, i as int));
            assert(chars@.subrange(start as int, i + 1) =~= pieces.last().push(chars@[i as int]));
        }
        i += 1;
    }
    let ghost before = parts_at(chars@, out@);
    out.push((start, i));
    assert(parts_at(chars@, out@) =~= before.push(chars@.subrange(start as int, i as int)));
    assert(chars@.take(i as int) =~= chars@);
    out
}

/// The first line of `s`: up to the first line feed, without a carriage return right
/// before it; the whole of `s` where there is none.
pub open spec fn first_line(s: Seq<char>) -> Seq<char> {
    let pieces = segments::split(s, '\n');
    let line = pieces[0];
    if pieces.len() > 1 && line.len() > 0 && line.last() == '\r' {
        line.drop_last()
    } else {
        line
    }
}

/// The first line of `text`.
pub fn first_line_of(text: &str) -> (out: String)
    ensures
        out@ == first_line(text@),
{
    let chars = chars_of(text);
    let ranges = split_ranges(chars.as_slice(), '\n');
    let ghost pieces = segments::split(text@, '\n');
    assert(ranges@.len() == pieces.len() >= 1) by {
        segments::lemma_split(text@, '\n');
        assert(parts_at(chars@, ranges@).len() == ranges@.len());
    }
    let (from, to) = ranges[0];
    assert(from <= to <= chars@.len()) by {
        assert(ranges_in(ranges@, chars@.len() as int));
        assert(ranges@[0] == (from, to));
    }
    let ghost line = chars@.subrange(from as int, to as int);
    assert(pieces[0] == line) by {
        assert(parts_at(chars@, ranges@)[0] == line);
    }
    let end: usize = if ranges.len() > 1 && to > from && chars[to - 1] == '\r' {
        to - 1
    } else {
        to
    };
    assert(chars@.subrange(from as int, end as int) == first_line(text@)) by {
        if to > from {
            assert(line.last() == chars@[to - 1]);
            assert(line.drop_last() =~= chars@.subrange(from as int, to - 1));
        }
    }
    string_of(chars.as_slice(), from, end)
}

/// Trimming at the end takes white space away, all of it and nothing else.
pub proof fn lemma_trimmed_end(s: Seq<char>) -> (n: int)
    ensures
        0 <= n <= s.len(),
        trimmed_end(s) == s.take(n),
        forall|i: int| n <= i < s.len() ==> is_white(#[trigger] s[i]),
        n > 0 ==> !is_white(s[n - 1]),
    decreases s.len(),
{
    if s.len() > 0 && is_white(s.last()) {
        let init = s.drop_last();
        let n = lemma_trimmed_end(init);
        assert(init.take(n) =~= s.take(n));
        assert forall|i: int| n <= i < s.len() implies is_white(#[trigger] s[i]) by {
            if i < init.len() {
                assert(init[i] == s[i]);
            }
        }
        n
    } else {
        assert(s.take(s.len() as int) =~= s);
        s.len() as int
    }
}

proof fn lemma_trimmed_start(s: Seq<char>) -> (m: int)
    ensures
        0 <= m <= s.len(),
        trimmed_start(s) == s.skip(m),
        forall|i: int| 0 <= i < m ==> is_white(#[trigger] s[i]),
        m < s.len() ==> !is_white(s[m]),
    decreases s.len(),
{
    if s.len() > 0 && is_white(s[0]) {
        let rest = s.skip(1);
        let m = lemma_trimmed_start(rest);
        assert(rest.skip(m) =~= s.skip(m + 1));
        assert forall|i: int| 0 <= i < m + 1 implies is_white(#[trigger] s[i]) by {
            if i > 0 {
                assert(rest[i - 1] == s[i]);
            }
        }
        m + 1
    } else {
        assert(s.skip(0) =~= s);
        0
    }
}

/// Trimming at both ends takes white space away, all of it and nothing else.
pub proof fn lemma_trimmed(s: Seq<char>) -> (at: (int, int))
    ensures
        0 <= at.0 <= at.1 <= s.len(),
        trimmed(s) == s.subrange(at.0, at.1),
        forall|i: int| 0 <= i < at.0 ==> is_white(#[trigger] s[i]),
        forall|i: int| at.1 <= i < s.len() ==> is_white(#[trigger] s[i]),
        at.0 < at.1 ==> !is_white(s[at.0]) && !is_white(s[at.1 - 1]),
{
    let m = lemma_trimmed_start(s);
    let rest = s.skip(m);
    let n = lemma_trimmed_end(rest);
    assert(rest.take(n) =~= s.subrange(m, m + n));
    assert forall|i: int| m + n <= i < s.len() implies is_white(#[trigger] s[i]) by {
        assert(rest[i - m] == s[i]);
    }
    if n > 0 {
        assert(rest[n - 1] == s[m + n - 1]);
    }
    (m, m + n)
}

/// The first line of a text is what stands before its first line feed, without a carriage
/// return right before that; a text without a line feed is its own first line.
pub proof fn lemma_first_line(line: Seq<char>, rest: Seq<char>)
    requires
        !line.contains('\n'),
    ensures
        first_line(line) == line,
        first_line(line + seq!['\n'] + rest) == if line.len() > 0 && line.last() == '\r' {
            line.drop_last()
        } else {
            line
        },
{
    segments::lemma_split_single(line, '\n');
    let s = line + seq!['\n'] + rest;
    lemma_split_first(line, '\n', rest);
}

proof fn lemma_split_first(line: Seq<char>, sep: char, rest: Seq<char>)
    requires
        !line.contains(sep),
    ensures
        segments::split(line + seq![sep] + rest, sep).len() > 1,
        segments::split(line + seq![sep] + rest, sep)[0] == line,
    decreases rest.len(),
{
    let s = line + seq![sep] + rest;
    if rest.len() == 0 {
        assert(s =~= line.push(sep) + rest);
        assert(!rest.contains(sep));
        segments::lemma_split_append(line, sep, rest);
        segments::lemma_split_single(line, sep);
    } else {
        lemma_split_first(line, sep, rest.drop_last());
        assert(s.drop_last() =~= line + seq![sep] + rest.drop_last());
    }
}

/// Replacing puts the replacement in place of every occurrence of the pattern and leaves the
/// rest alone: a text that the pattern does not occur in stays as it is, and what stands before
/// and behind an occurrence is dealt with on its own.
pub proof fn lemma_replaced_around(
    x: Seq<char>,
    y: Seq<char>,
    pat: Seq<char>,
    with: Seq<char>,
)
    requires
        pat.len() > 0,
        forall|i: int| 0 < i < pat.len() ==> (#[trigger] pat[i]) != pat[0],
    ensures
        !occurs(x, pat) ==> replaced(x, pat, with) == x,
        replaced(x + pat + y, pat, with) == replaced(x, pat, with) + with + replaced(y, pat, with),
    decreases x.len(),
{
    let s = x + pat + y;
    if x.len() == 0 {
        assert(s.subrange(0, pat.len() as int) =~= pat);
        assert(s.skip(pat.len() as int) =~= y);
        assert(replaced(x, pat, with) =~= x);
        assert(replaced(s, pat, with) =~= replaced(x, pat, with) + with + replaced(y, pat, with));
    } else if occurs_at(x, pat, 0) {
        let rest = x.skip(pat.len() as int);
        assert(occurs(x, pat));
        assert(s.subrange(0, pat.len() as int) =~= x.subrange(0, pat.len() as int));
        assert(s.skip(pat.len() as int) =~= rest + pat + y);
        lemma_replaced_around(rest, y, pat, with);
        assert(replaced(s, pat, with) =~= replaced(x, pat, with) + with + replaced(y, pat, with));
    } else {
        let rest = x.skip(1);
        assert(!occurs_at(s, pat, 0)) by {
            if occurs_at(s, pat, 0) {
                let front = s.subrange(0, pat.len() as int);
                if pat.len() <= x.len() {
                    assert(front =~= x.subrange(0, pat.len() as int));
                } else {
                    assert(front[x.len() as int] == pat[0]);
                    assert(pat[x.len() as int] == pat[0]);
                }
            }
        }
        assert(s.skip(1) =~= rest + pat + y);
        lemma_replaced_around(rest, y, pat, with);
        if !occurs(x, pat) {
            assert(!occurs(rest, pat)) by {
                if occurs(rest, pat) {
                    let i = choose|i: int| occurs_at(rest, pat, i);
                    assert(x.subrange(i + 1, i + 1 + pat.len()) =~= rest.subrange(
                        i,
                        i + pat.len(),
                    ));
                    assert(occurs_at(x, pat, i + 1));
                }
            }
            assert(replaced(x, pat, with) =~= x);
        }
        assert(replaced(s, pat, with) =~= replaced(x, pat, with) + with + replaced(y, pat, with));
    }
}

/// What stands beside a harmless replacement is dealt with on its own.
pub proof fn lemma_replaced_beside(
    x: Seq<char>,
    v: Seq<char>,
    y: Seq<char>,
    pat: Seq<char>,
    with: Seq<char>,
)
    requires
        is_escape(pat, with),
        v.len() > 0,
        v[0] == '&',
        forall|i: int| 0 <= i < v.len() ==> (#[trigger] v[i]) != '<',
    ensures
        replaced(x + v + y, pat, with) == replaced(x, pat, with) + v + replaced(y, pat, with),
    decreases x.len(),
{
    let s = x + v + y;
    if x.len() == 0 {
        assert(s =~= v + y);
        lemma_copied(v, y, pat, with);
        assert(replaced(s, pat, with) =~= replaced(x, pat, with) + v + replaced(y, pat, with));
    } else if occurs_at(x, pat, 0) {
        let rest = x.skip(pat.len() as int);
        assert(s.subrange(0, pat.len() as int) =~= x.subrange(0, pat.len() as int));
        assert(s.skip(pat.len() as int) =~= rest + v + y);
        lemma_replaced_beside(rest, v, y, pat, with);
        assert(replaced(s, pat, with) =~= replaced(x, pat, with) + v + replaced(y, pat, with));
    } else {
        let rest = x.skip(1);
        assert(!occurs_at(s, pat, 0)) by {
            if occurs_at(s, pat, 0) {
                let front = s.subrange(0, pat.len() as int);
                if pat.len() <= x.len() {
                    assert(front =~= x.subrange(0, pat.len() as int));
                } else {
                    assert(front[x.len() as int] == v[0]);
                    assert(pat[x.len() as int] == '&');
                }
            }
        }
        assert(s.skip(1) =~= rest + v + y);
        lemma_replaced_beside(rest, v, y, pat, with);
        assert(replaced(s, pat, with) =~= replaced(x, pat, with) + v + replaced(y, pat, with));
    }
}

} // verus!
