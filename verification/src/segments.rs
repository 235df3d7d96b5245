//! Cutting a sequence at a separator and putting the pieces together again.

use vstd::prelude::*;

verus! {

/// The pieces of `s` between occurrences of `sep`; always at least one piece.
pub open spec fn split<T>(s: Seq<T>, sep: T) -> Seq<Seq<T>>
    decreases s.len(),
{
    if s.len() == 0 {
        seq![Seq::<T>::empty()]
    } else {
        let pieces = split(s.drop_last(), sep);
        if s.last() == sep {
            pieces.push(Seq::<T>::empty())
        } else {
            pieces.drop_last().push(pieces.last().push(s.last()))
        }
    }
}

/// `parts` one after the other, with `sep` between neighbours.
pub open spec fn join<T>(parts: Seq<Seq<T>>, sep: Seq<T>) -> Seq<T>
    decreases parts.len(),
{
    if parts.len() == 0 {
        Seq::empty()
    } else if parts.len() == 1 {
        parts[0]
    } else {
        join(parts.drop_last(), sep) + sep + parts.last()
    }
}

/// `parts` one after the other, with `end` behind each.
pub open spec fn terminate<T>(parts: Seq<Seq<T>>, end: T) -> Seq<T>
    decreases parts.len(),
{
    if parts.len() == 0 {
        Seq::empty()
    } else {
        terminate(parts.drop_last(), end) + parts.last().push(end)
    }
}

/// Splitting yields pieces free of the separator, which joined again give the
/// sequence back.
pub proof fn lemma_split<T>(s: Seq<T>, sep: T)
    ensures
        split(s, sep).len() >= 1,
        join(split(s, sep), seq![sep]) == s,
        forall|i: int| 0 <= i < split(s, sep).len() ==> !(#[trigger] split(s, sep)[i]).contains(sep),
    decreases s.len(),
{
    let pieces = split(s, sep);
    if s.len() == 0 {
        assert(join(pieces, seq![sep]) =~= s);
    } else {
        lemma_split(s.drop_last(), sep);
        let before = split(s.drop_last(), sep);
        if s.last() == sep {
            assert(pieces.drop_last() =~= before);
            assert(join(pieces, seq![sep]) =~= s);
        } else {
            let grown = before.last().push(s.last());
            assert(pieces.drop_last() =~= before.drop_last());
            assert(pieces.last() == grown);
            assert(!before[before.len() - 1].contains(sep));
            assert(!grown.contains(sep)) by {
                if grown.contains(sep) {
                    let k = choose|k: int| 0 <= k < grown.len() && grown[k] == sep;
                    assert(k < before.last().len());
                    assert(before.last()[k] == sep);
                }
            }
            assert(join(pieces, seq![sep]) =~= s) by {
                assert(s.drop_last().push(s.last()) =~= s);
                if before.len() == 1 {
                    assert(before[0] == s.drop_last());
                    assert(pieces[0] == grown);
                } else {
                    assert(join(pieces, seq![sep]) == join(pieces.drop_last(), seq![sep])
                        + seq![sep] + grown);
                    assert(join(before, seq![sep]) == join(before.drop_last(), seq![sep]) + seq![sep]
                        + before.last());
                }
            }
        }
        assert forall|i: int| 0 <= i < pieces.len() implies !(#[trigger] pieces[i]).contains(sep) by {
            if i < before.len() - 1 {
                assert(pieces[i] == before[i]);
            } else if s.last() == sep && i < before.len() {
                assert(pieces[i] == before[i]);
            }
        }
    }
}

/// The pieces of `a`, then a separator, then a piece without the separator.
pub proof fn lemma_split_append<T>(a: Seq<T>, sep: T, b: Seq<T>)
    requires
        !b.contains(sep),
    ensures
        split(a.push(sep) + b, sep) == split(a, sep).push(b),
    decreases b.len(),
{
    if b.len() == 0 {
        assert(b =~= Seq::<T>::empty());
        assert(a.push(sep) + b =~= a.push(sep));
        assert(a.push(sep).drop_last() =~= a);
        assert(split(a.push(sep), sep) =~= split(a, sep).push(b));
    } else {
        let whole = a.push(sep) + b;
        assert(whole.drop_last() =~= a.push(sep) + b.drop_last());
        assert(!b.drop_last().contains(sep)) by {
            if b.drop_last().contains(sep) {
                let k = choose|k: int| 0 <= k < b.drop_last().len() && b.drop_last()[k] == sep;
                assert(b[k] == sep);
            }
        }
        lemma_split_append(a, sep, b.drop_last());
        assert(b[b.len() - 1] != sep) by {
            if b[b.len() - 1] == sep {
                assert(b.contains(sep));
            }
        }
        let pieces = split(whole.drop_last(), sep);
        assert(pieces.last() == b.drop_last());
        assert(pieces.drop_last() =~= split(a, sep));
        assert(b.drop_last().push(b.last()) =~= b);
        assert(split(whole, sep) =~= split(a, sep).push(b));
    }
}

/// A sequence without the separator is its own only piece.
pub proof fn lemma_split_single<T>(b: Seq<T>, sep: T)
    requires
        !b.contains(sep),
    ensures
        split(b, sep) == seq![b],
    decreases b.len(),
{
    if b.len() == 0 {
        assert(b =~= Seq::<T>::empty());
    } else {
        assert(!b.drop_last().contains(sep)) by {
            if b.drop_last().contains(sep) {
                let k = choose|k: int| 0 <= k < b.drop_last().len() && b.drop_last()[k] == sep;
                assert(b[k] == sep);
            }
        }
        lemma_split_single(b.drop_last(), sep);
        assert(b[b.len() - 1] != sep) by {
            if b[b.len() - 1] == sep {
                assert(b.contains(sep));
            }
        }
        assert(b.drop_last().push(b.last()) =~= b);
        assert(split(b, sep) =~= seq![b]);
    }
}

/// Terminated parts that are free of the terminator split into exactly those
/// parts and one empty rest.
pub proof fn lemma_split_terminated<T>(parts: Seq<Seq<T>>, end: T)
    requires
        forall|i: int| 0 <= i < parts.len() ==> !(#[trigger] parts[i]).contains(end),
    ensures
        split(terminate(parts, end), end) == parts.push(Seq::<T>::empty()),
    decreases parts.len(),
{
    let e = Seq::<T>::empty();
    if parts.len() == 0 {
        assert(split(terminate(parts, end), end) =~= parts.push(e));
    } else {
        let init = parts.drop_last();
        assert forall|i: int| 0 <= i < init.len() implies !(#[trigger] init[i]).contains(end) by {
            assert(init[i] == parts[i]);
        }
        lemma_split_terminated(init, end);
        let a = terminate(init, end);
        let last = parts.last();
        assert(last == parts[parts.len() - 1]);
        let whole = terminate(parts, end);
        assert(whole =~= (a + last).push(end));
        assert(whole.drop_last() =~= a + last);
        lemma_split_tail(a, end, last);
        assert(split(a + last, end) =~= parts);
        assert(split(whole, end) =~= parts.push(e));
    }
}

/// Text without the separator goes onto the last piece.
pub proof fn lemma_split_tail<T>(a: Seq<T>, sep: T, b: Seq<T>)
    requires
        !b.contains(sep),
    ensures
        split(a + b, sep) == split(a, sep).drop_last().push(split(a, sep).last() + b),
    decreases b.len(),
{
    lemma_split(a, sep);
    let pieces = split(a, sep);
    if b.len() == 0 {
        assert(a + b =~= a);
        assert(pieces.last() + b =~= pieces.last());
        assert(pieces.drop_last().push(pieces.last()) =~= pieces);
    } else {
        let c = b.drop_last();
        assert(!c.contains(sep)) by {
            if c.contains(sep) {
                let k = choose|k: int| 0 <= k < c.len() && c[k] == sep;
                assert(b[k] == sep);
            }
        }
        lemma_split_tail(a, sep, c);
        assert(b.last() != sep) by {
            if b.last() == sep {
                assert(b.contains(sep));
            }
        }
        assert((a + b).drop_last() =~= a + c);
        let before = split(a + c, sep);
        assert(before.drop_last() =~= pieces.drop_last());
        assert(before.last().push(b.last()) =~= pieces.last() + b);
        assert(split(a + b, sep) =~= pieces.drop_last().push(pieces.last() + b));
    }
}

/// Terminating parts is joining them and ending the last one.
pub proof fn lemma_terminate_is_join<T>(parts: Seq<Seq<T>>, end: T)
    requires
        parts.len() > 0,
    ensures
        terminate(parts, end) == join(parts, seq![end]).push(end),
    decreases parts.len(),
{
    if parts.len() == 1 {
        assert(terminate(parts.drop_last(), end) == Seq::<T>::empty());
        assert(terminate(parts, end) =~= join(parts, seq![end]).push(end));
    } else {
        lemma_terminate_is_join(parts.drop_last(), end);
        assert(terminate(parts, end) =~= join(parts, seq![end]).push(end));
    }
}

/// Every part stands in what the parts are joined to.
pub proof fn lemma_part_of_join<T>(parts: Seq<Seq<T>>, sep: Seq<T>, k: int) -> (around: (
    Seq<T>,
    Seq<T>,
))
    requires
        0 <= k < parts.len(),
    ensures
        join(parts, sep) == around.0 + parts[k] + around.1,
    decreases parts.len(),
{
    if parts.len() == 1 {
        assert(join(parts, sep) =~= Seq::<T>::empty() + parts[k] + Seq::<T>::empty());
        (Seq::empty(), Seq::empty())
    } else if k == parts.len() - 1 {
        let x = join(parts.drop_last(), sep) + sep;
        assert(join(parts, sep) =~= x + parts[k] + Seq::<T>::empty());
        (x, Seq::empty())
    } else {
        let (x, y) = lemma_part_of_join(parts.drop_last(), sep, k);
        let z = y + sep + parts.last();
        assert(join(parts, sep) =~= x + parts[k] + z);
        (x, z)
    }
}

/// Joining is putting a separator between neighbours and nowhere else: one part is itself, and
/// what is joined in two halves has one separator between them.
pub proof fn lemma_join_halves<T>(a: Seq<Seq<T>>, b: Seq<Seq<T>>, part: Seq<T>, sep: Seq<T>)
    ensures
        join(Seq::<Seq<T>>::empty(), sep) == Seq::<T>::empty(),
        join(seq![part], sep) == part,
        a.len() > 0 && b.len() > 0 ==> join(a + b, sep) == join(a, sep) + sep + join(b, sep),
    decreases b.len(),
{
    if a.len() > 0 && b.len() > 0 {
        let init = b.drop_last();
        assert((a + b).drop_last() =~= a + init);
        assert((a + b).last() == b.last());
        if init.len() == 0 {
            assert(a + init =~= a);
            assert(join(a + b, sep) =~= join(a, sep) + sep + join(b, sep));
        } else {
            lemma_join_halves(a, init, part, sep);
            assert(join(a + b, sep) =~= join(a, sep) + sep + join(b, sep));
        }
    }
}

/// Terminating is putting the terminator behind every part and nowhere else.
pub proof fn lemma_terminate_halves<T>(a: Seq<Seq<T>>, b: Seq<Seq<T>>, part: Seq<T>, end: T)
    ensures
        terminate(Seq::<Seq<T>>::empty(), end) == Seq::<T>::empty(),
        terminate(seq![part], end) == part + seq![end],
        terminate(a + b, end) == terminate(a, end) + terminate(b, end),
    decreases b.len(),
{
    assert(terminate(seq![part], end) =~= part + seq![end]) by {
        assert(seq![part].drop_last() =~= Seq::<Seq<T>>::empty());
        assert(terminate(Seq::<Seq<T>>::empty(), end) =~= Seq::<T>::empty());
        assert(terminate(seq![part], end) == terminate(seq![part].drop_last(), end)
            + seq![part].last().push(end));
    }
    if b.len() == 0 {
        assert(a + b =~= a);
        assert(terminate(a, end) + terminate(b, end) =~= terminate(a, end));
    } else {
        lemma_terminate_halves(a, b.drop_last(), part, end);
        assert((a + b).drop_last() =~= a + b.drop_last());
        assert(terminate(a + b, end) =~= terminate(a, end) + terminate(b, end));
    }
}

} // verus!
