//! Orders and stable sorting.

use vstd::prelude::*;

verus! {

/// Whether `less` is irreflexive, transitive and decides between any two values.
pub open spec fn strict_total<T>(less: spec_fn(T, T) -> bool) -> bool {
    &&& forall|a: T| !(#[trigger] less(a, a))
    &&& forall|a: T, b: T| #[trigger] less(a, b) || a == b || less(b, a)
    &&& forall|a: T, b: T, c: T| #[trigger] less(a, b) && #[trigger] less(b, c) ==> less(a, c)
}

/// Whether `less` is irreflexive and transitive, and everything comes before the later
/// or after the earlier of two ordered values.
pub open spec fn strict_weak<T>(less: spec_fn(T, T) -> bool) -> bool {
    &&& forall|a: T| !(#[trigger] less(a, a))
    &&& forall|a: T, b: T, c: T| #[trigger] less(a, b) && #[trigger] less(b, c) ==> less(a, c)
    &&& forall|a: T, b: T, c: T| #[trigger] less(a, b) ==> #[trigger] less(a, c) || less(c, b)
}

/// An order that decides between any two values is a weak order.
pub proof fn lemma_total_is_weak<T>(less: spec_fn(T, T) -> bool)
    requires
        strict_total(less),
    ensures
        strict_weak(less),
{
    assert forall|a: T, b: T, c: T| #[trigger] less(a, b) implies #[trigger] less(a, c) || less(
        c,
        b,
    ) by {
        assert(less(a, c) || a == c || less(c, a));
        if less(c, a) {
            assert(less(c, b));
        }
    }
}

/// Whether sequence `a` comes before `b` when they are compared item by item.
pub open spec fn lex_less<T>(less: spec_fn(T, T) -> bool, a: Seq<T>, b: Seq<T>) -> bool
    decreases a.len(),
{
    if b.len() == 0 {
        false
    } else if a.len() == 0 {
        true
    } else {
        less(a[0], b[0]) || (a[0] == b[0] && lex_less(less, a.skip(1), b.skip(1)))
    }
}

proof fn lemma_lex_irreflexive<T>(less: spec_fn(T, T) -> bool, a: Seq<T>)
    requires
        strict_total(less),
    ensures
        !lex_less(less, a, a),
    decreases a.len(),
{
    if a.len() > 0 {
        lemma_lex_irreflexive(less, a.skip(1));
    }
}

proof fn lemma_lex_decides<T>(less: spec_fn(T, T) -> bool, a: Seq<T>, b: Seq<T>)
    requires
        strict_total(less),
    ensures
        lex_less(less, a, b) || a == b || lex_less(less, b, a),
    decreases a.len(),
{
    if a.len() == 0 && b.len() == 0 {
        assert(a =~= b);
    } else if a.len() > 0 && b.len() > 0 {
        lemma_lex_decides(less, a.skip(1), b.skip(1));
        assert(less(a[0], b[0]) || a[0] == b[0] || less(b[0], a[0]));
        if a[0] == b[0] && a.skip(1) == b.skip(1) {
            assert(a =~= seq![a[0]] + a.skip(1));
            assert(b =~= seq![b[0]] + b.skip(1));
        }
    }
}

proof fn lemma_lex_transitive<T>(less: spec_fn(T, T) -> bool, a: Seq<T>, b: Seq<T>, c: Seq<T>)
    requires
        strict_total(less),
        lex_less(less, a, b),
        lex_less(less, b, c),
    ensures
        lex_less(less, a, c),
    decreases a.len(),
{
    if a.len() > 0 {
        if a[0] == b[0] && b[0] == c[0] {
            if !less(a[0], a[0]) {
                lemma_lex_transitive(less, a.skip(1), b.skip(1), c.skip(1));
            }
        } else if less(a[0], b[0]) && less(b[0], c[0]) {
            assert(less(a[0], c[0]));
        }
    }
}

/// Comparing item by item is a strict total order if comparing items is.
pub proof fn lemma_lex_total<T>(less: spec_fn(T, T) -> bool)
    requires
        strict_total(less),
    ensures
        strict_total(|a: Seq<T>, b: Seq<T>| lex_less(less, a, b)),
{
    let lex = |a: Seq<T>, b: Seq<T>| lex_less(less, a, b);
    assert forall|a: Seq<T>| !(#[trigger] lex(a, a)) by {
        lemma_lex_irreflexive(less, a);
    }
    assert forall|a: Seq<T>, b: Seq<T>| #[trigger] lex(a, b) || a == b || lex(b, a) by {
        lemma_lex_decides(less, a, b);
    }
    assert forall|a: Seq<T>, b: Seq<T>, c: Seq<T>| #[trigger]
        lex(a, b) && #[trigger] lex(b, c) implies lex(a, c) by {
        lemma_lex_transitive(less, a, b, c);
    }
}

/// Of two sequences whose front parts are equally long, the front parts decide, and what
/// stands behind them where they are equal.
pub proof fn lemma_lex_concat<T>(
    less: spec_fn(T, T) -> bool,
    a: Seq<T>,
    x: Seq<T>,
    b: Seq<T>,
    y: Seq<T>,
)
    requires
        a.len() == b.len(),
        strict_total(less),
    ensures
        lex_less(less, a + x, b + y) == (lex_less(less, a, b) || (a == b && lex_less(less, x, y))),
    decreases a.len(),
{
    if a.len() == 0 {
        assert(a + x =~= x);
        assert(b + y =~= y);
        assert(a =~= b);
    } else {
        lemma_lex_concat(less, a.skip(1), x, b.skip(1), y);
        assert((a + x).skip(1) =~= a.skip(1) + x);
        assert((b + y).skip(1) =~= b.skip(1) + y);
        assert((a + x)[0] == a[0] && (b + y)[0] == b[0]);
        if a[0] == b[0] {
            if a.skip(1) == b.skip(1) {
                assert(a =~= seq![a[0]] + a.skip(1));
                assert(b =~= seq![b[0]] + b.skip(1));
            }
            assert(!less(a[0], b[0]));
        }
    }
}

/// `sorted` with `x` put behind every item that does not come after it.
pub open spec fn placed<T>(sorted: Seq<T>, x: T, less: spec_fn(T, T) -> bool) -> Seq<T>
    decreases sorted.len(),
{
    if sorted.len() > 0 && less(x, sorted.last()) {
        placed(sorted.drop_last(), x, less).push(sorted.last())
    } else {
        sorted.push(x)
    }
}

/// The items of `s` in order; items that come in no order keep theirs.
pub open spec fn stable_sort<T>(s: Seq<T>, less: spec_fn(T, T) -> bool) -> Seq<T>
    decreases s.len(),
{
    if s.len() == 0 {
        s
    } else {
        placed(stable_sort(s.drop_last(), less), s.last(), less)
    }
}

/// No item stands behind one that it comes before.
pub open spec fn is_sorted<T>(s: Seq<T>, less: spec_fn(T, T) -> bool) -> bool {
    forall|i: int, j: int| 0 <= i < j < s.len() ==> !less(#[trigger] s[j], #[trigger] s[i])
}

proof fn lemma_placed<T>(sorted: Seq<T>, x: T, less: spec_fn(T, T) -> bool)
    requires
        strict_weak(less),
        is_sorted(sorted, less),
    ensures
        is_sorted(placed(sorted, x, less), less),
        placed(sorted, x, less).to_multiset() == sorted.to_multiset().insert(x),
        placed(sorted, x, less).len() == sorted.len() + 1,
    decreases sorted.len(),
{
    broadcast use vstd::seq_lib::group_to_multiset_ensures;

    let out = placed(sorted, x, less);
    if sorted.len() > 0 && less(x, sorted.last()) {
        let init = sorted.drop_last();
        let last = sorted.last();
        assert forall|i: int, j: int| 0 <= i < j < init.len() implies !less(
            #[trigger] init[j],
            #[trigger] init[i],
        ) by {
            assert(init[j] == sorted[j] && init[i] == sorted[i]);
        }
        lemma_placed(init, x, less);
        let inner = placed(init, x, less);
        assert(init.push(last) =~= sorted);
        assert(out.to_multiset() =~= sorted.to_multiset().insert(x));
        assert forall|i: int| 0 <= i < inner.len() implies !less(last, #[trigger] inner[i]) by {
            lemma_placed_from(init, x, less, i);
            if inner[i] != x {
                let k = choose|k: int| 0 <= k < init.len() && init[k] == inner[i];
                assert(sorted[k] == inner[i]);
                assert(!less(sorted[sorted.len() - 1], sorted[k]));
            } else if less(last, x) {
                assert(less(x, x));
            }
        }
        assert forall|i: int, j: int| 0 <= i < j < out.len() implies !less(
            #[trigger] out[j],
            #[trigger] out[i],
        ) by {
            if j == out.len() - 1 {
                assert(out[i] == inner[i]);
            } else {
                assert(out[i] == inner[i] && out[j] == inner[j]);
            }
        }
    } else {
        assert forall|i: int, j: int| 0 <= i < j < out.len() implies !less(
            #[trigger] out[j],
            #[trigger] out[i],
        ) by {
            if j == out.len() - 1 {
                let last = sorted[sorted.len() - 1];
                if i < sorted.len() - 1 {
                    assert(!less(last, sorted[i]));
                    assert(less(x, sorted[i]) ==> less(x, last) || less(last, sorted[i]));
                }
            } else {
                assert(out[i] == sorted[i] && out[j] == sorted[j]);
            }
        }
    }
}

/// Every item of the result is the new one or an old one.
proof fn lemma_placed_from<T>(sorted: Seq<T>, x: T, less: spec_fn(T, T) -> bool, i: int)
    requires
        0 <= i < placed(sorted, x, less).len(),
    ensures
        placed(sorted, x, less)[i] == x || exists|k: int|
            0 <= k < sorted.len() && sorted[k] == placed(sorted, x, less)[i],
    decreases sorted.len(),
{
    let out = placed(sorted, x, less);
    if sorted.len() > 0 && less(x, sorted.last()) {
        let init = sorted.drop_last();
        let inner = placed(init, x, less);
        if i < inner.len() {
            lemma_placed_from(init, x, less, i);
            if inner[i] != x {
                let k = choose|k: int| 0 <= k < init.len() && init[k] == inner[i];
                assert(sorted[k] == out[i]);
            }
        } else {
            assert(sorted[sorted.len() - 1] == out[i]);
        }
    } else if i < sorted.len() {
        assert(sorted[i] == out[i]);
    }
}

/// Sorting puts the same items in order.
pub proof fn lemma_stable_sort<T>(s: Seq<T>, less: spec_fn(T, T) -> bool)
    requires
        strict_weak(less),
    ensures
        is_sorted(stable_sort(s, less), less),
        stable_sort(s, less).to_multiset() == s.to_multiset(),
        stable_sort(s, less).len() == s.len(),
    decreases s.len(),
{
    broadcast use vstd::seq_lib::group_to_multiset_ensures;

    if s.len() > 0 {
        lemma_stable_sort(s.drop_last(), less);
        lemma_placed(stable_sort(s.drop_last(), less), s.last(), less);
        assert(s.drop_last().push(s.last()) =~= s);
        assert(stable_sort(s, less).to_multiset() =~= s.to_multiset());
    }
}

/// There is only one way to put items in an order that decides between any two of them.
pub proof fn lemma_sorted_unique<T>(a: Seq<T>, b: Seq<T>, less: spec_fn(T, T) -> bool)
    requires
        a.to_multiset() == b.to_multiset(),
        forall|x: T, y: T| #[trigger] less(x, y) ==> !less(y, x),
        forall|i: int, j: int| 0 <= i < j < a.len() ==> less(#[trigger] a[i], #[trigger] a[j]),
        forall|i: int, j: int| 0 <= i < j < b.len() ==> less(#[trigger] b[i], #[trigger] b[j]),
    ensures
        a == b,
    decreases a.len(),
{
    broadcast use vstd::seq_lib::group_to_multiset_ensures;

    assert(a.len() == a.to_multiset().len());
    assert(b.len() == b.to_multiset().len());
    if a.len() == 0 {
        assert(a =~= b);
    } else {
        let x = a.last();
        let y = b.last();
        assert(a[a.len() - 1] == x);
        assert(b[b.len() - 1] == y);
        assert(a.contains(x) && b.contains(y));
        assert(b.to_multiset().count(x) > 0 && a.to_multiset().count(y) > 0);
        assert(b.contains(x) && a.contains(y));
        let p = choose|p: int| 0 <= p < b.len() && b[p] == x;
        let q = choose|q: int| 0 <= q < a.len() && a[q] == y;
        if p < b.len() - 1 && q < a.len() - 1 {
            assert(less(b[p], b[b.len() - 1]));
            assert(less(a[q], a[a.len() - 1]));
        }
        assert(x == y);
        let c = a.drop_last();
        let d = b.drop_last();
        assert(c.push(x) =~= a);
        assert(d.push(x) =~= b);
        assert(c.to_multiset() =~= a.to_multiset().remove(x));
        assert(d.to_multiset() =~= b.to_multiset().remove(x));
        lemma_sorted_unique(c, d, less);
    }
}

/// Whether neither of two values comes before the other.
pub open spec fn tied<T>(less: spec_fn(T, T) -> bool, a: T, b: T) -> bool {
    !less(a, b) && !less(b, a)
}

/// The items of `s` that are tied with `z`, in their order.
pub open spec fn ties<T>(s: Seq<T>, less: spec_fn(T, T) -> bool, z: T) -> Seq<T>
    decreases s.len(),
{
    if s.len() == 0 {
        s
    } else if tied(less, s.last(), z) {
        ties(s.drop_last(), less, z).push(s.last())
    } else {
        ties(s.drop_last(), less, z)
    }
}

proof fn lemma_placed_ties<T>(sorted: Seq<T>, x: T, less: spec_fn(T, T) -> bool, z: T)
    requires
        strict_weak(less),
    ensures
        ties(placed(sorted, x, less), less, z) == if tied(less, x, z) {
            ties(sorted, less, z).push(x)
        } else {
            ties(sorted, less, z)
        },
    decreases sorted.len(),
{
    let out = placed(sorted, x, less);
    if sorted.len() > 0 && less(x, sorted.last()) {
        let last = sorted.last();
        lemma_placed_ties(sorted.drop_last(), x, less, z);
        assert(out.drop_last() =~= placed(sorted.drop_last(), x, less));
        assert(out.last() == last);
        assert(less(x, last) ==> less(x, z) || less(z, last));
    } else {
        assert(out.drop_last() =~= sorted);
    }
}

/// Sorting keeps the order of items that are tied.
pub proof fn lemma_sort_is_stable<T>(s: Seq<T>, less: spec_fn(T, T) -> bool, z: T)
    requires
        strict_weak(less),
    ensures
        ties(stable_sort(s, less), less, z) == ties(s, less, z),
    decreases s.len(),
{
    if s.len() > 0 {
        lemma_sort_is_stable(s.drop_last(), less, z);
        lemma_placed_ties(stable_sort(s.drop_last(), less), s.last(), less, z);
    }
}

proof fn lemma_placed_map<T, U>(
    sorted: Seq<T>,
    x: T,
    less: spec_fn(T, T) -> bool,
    f: spec_fn(T) -> U,
    less_u: spec_fn(U, U) -> bool,
)
    requires
        forall|a: T, b: T| #[trigger] less(a, b) == less_u(f(a), f(b)),
    ensures
        placed(sorted, x, less).map_values(f) == placed(sorted.map_values(f), f(x), less_u),
    decreases sorted.len(),
{
    let mapped = sorted.map_values(f);
    if sorted.len() > 0 {
        assert(mapped.last() == f(sorted.last()));
        assert(mapped.drop_last() =~= sorted.drop_last().map_values(f));
        assert(less(x, sorted.last()) == less_u(f(x), f(sorted.last())));
    }
    if sorted.len() > 0 && less(x, sorted.last()) {
        lemma_placed_map(sorted.drop_last(), x, less, f, less_u);
        assert(placed(sorted, x, less).map_values(f) =~= placed(
            sorted.drop_last(),
            x,
            less,
        ).map_values(f).push(mapped.last()));
    } else {
        assert(placed(sorted, x, less).map_values(f) =~= mapped.push(f(x)));
    }
}

/// Sorting by what an item shows sorts what is shown.
pub proof fn lemma_sort_map<T, U>(
    s: Seq<T>,
    less: spec_fn(T, T) -> bool,
    f: spec_fn(T) -> U,
    less_u: spec_fn(U, U) -> bool,
)
    requires
        forall|a: T, b: T| #[trigger] less(a, b) == less_u(f(a), f(b)),
    ensures
        stable_sort(s, less).map_values(f) == stable_sort(s.map_values(f), less_u),
    decreases s.len(),
{
    let mapped = s.map_values(f);
    if s.len() == 0 {
        assert(stable_sort(s, less).map_values(f) =~= stable_sort(mapped, less_u));
    } else {
        lemma_sort_map(s.drop_last(), less, f, less_u);
        assert(mapped.drop_last() =~= s.drop_last().map_values(f));
        assert(mapped.last() == f(s.last()));
        lemma_placed_map(stable_sort(s.drop_last(), less), s.last(), less, f, less_u);
    }
}

/// Something that can be sorted.
pub trait Ranked: Sized {
    /// Whether `a` comes before `b`.
    spec fn before(a: Self, b: Self) -> bool;

    /// Whether this comes before `other`.
    fn comes_before(&self, other: &Self) -> (yes: bool)
        ensures
            yes == Self::before(*self, *other),
    ;
}

/// The order of a ranked type.
pub open spec fn by_rank<T: Ranked>() -> spec_fn(T, T) -> bool {
    |a: T, b: T| T::before(a, b)
}

fn place<T: Ranked>(sorted: &mut Vec<T>, x: T)
    ensures
        final(sorted)@ == placed(old(sorted)@, x, by_rank::<T>()),
{
    let ghost all = sorted@;
    let mut at: usize = sorted.len();
    assert(all.take(at as int) =~= all);
    assert(all.skip(at as int) =~= Seq::<T>::empty());
    while at > 0 && x.comes_before(&sorted[at - 1])
        invariant
            sorted@ == all,
            at <= all.len(),
            placed(all, x, by_rank::<T>()) == placed(all.take(at as int), x, by_rank::<T>())
                + all.skip(at as int),
        decreases at,
    {
        proof {
            let head = all.take(at as int);
            assert(head.last() == all[at - 1]);
            assert(head.drop_last() =~= all.take(at - 1));
            assert(all.skip(at - 1) =~= seq![all[at - 1]] + all.skip(at as int));
            assert(placed(head, x, by_rank::<T>()) == placed(
                all.take(at - 1),
                x,
                by_rank::<T>(),
            ).push(all[at - 1]));
            assert(placed(head, x, by_rank::<T>()) + all.skip(at as int) =~= placed(
                all.take(at - 1),
                x,
                by_rank::<T>(),
            ) + all.skip(at - 1));
        }
        at -= 1;
    }
    proof {
        let head = all.take(at as int);
        if at > 0 {
            assert(head.last() == all[at - 1]);
        }
        assert(placed(head, x, by_rank::<T>()) == head.push(x));
        assert(head.push(x) + all.skip(at as int) =~= all.insert(at as int, x));
    }
    sorted.insert(at, x);
}

/// The items in order; items that come in no order keep theirs.
pub fn sort<T: Ranked>(items: Vec<T>) -> (sorted: Vec<T>)
    ensures
        sorted@ == stable_sort(items@, by_rank::<T>()),
{
    let mut sorted: Vec<T> = Vec::new();
    let ghost all = items@;
    for x in it: items
        invariant
            it.seq() == all,
            sorted@ == stable_sort(all.take(it.index() as int), by_rank::<T>()),
    {
        proof {
            let head = all.take(it.index() + 1);
            assert(head.drop_last() =~= all.take(it.index() as int));
            assert(head.last() == x);
        }
        place(&mut sorted, x);
    }
    assert(all.take(all.len() as int) =~= all);
    sorted
}

} // verus!
