//! Sequence operations shared by the text codecs: concatenation of pieces,
//! splitting at a separator, and the facts that relate them.

use vstd::prelude::*;

verus! {

/// The pieces of `parts` laid end to end.
pub open spec fn concat_all<A>(parts: Seq<Seq<A>>) -> Seq<A>
    decreases parts.len(),
{
    if parts.len() == 0 {
        Seq::empty()
    } else {
        concat_all(parts.drop_last()) + parts.last()
    }
}

/// The pieces of `s` between occurrences of `sep`, as `split` on a slice or a `str`
/// yields them: `k` separators give `k + 1` pieces, possibly empty.
pub open spec fn split_on<A>(s: Seq<A>, sep: A) -> Seq<Seq<A>>
    decreases s.len(),
{
    if s.len() == 0 {
        seq![Seq::empty()]
    } else {
        let p = split_on(s.drop_last(), sep);
        if s.last() == sep {
            p.push(Seq::empty())
        } else {
            p.update(p.len() - 1, p.last().push(s.last()))
        }
    }
}

/// `split_on` always yields at least one piece.
pub proof fn lemma_split_on_nonempty<A>(s: Seq<A>, sep: A)
    ensures
        split_on(s, sep).len() >= 1,
    decreases s.len(),
{
    if s.len() > 0 {
        lemma_split_on_nonempty(s.drop_last(), sep);
    }
}

/// One step of `split_on` over a prefix: extending the prefix by one element either
/// opens a new piece (at a separator) or extends the last piece.
pub proof fn lemma_split_on_step<A>(s: Seq<A>, sep: A, i: int)
    requires
        0 <= i < s.len(),
    ensures
        split_on(s.take(i + 1), sep) == (if s[i] == sep {
            split_on(s.take(i), sep).push(Seq::empty())
        } else {
            split_on(s.take(i), sep).update(
                split_on(s.take(i), sep).len() - 1,
                split_on(s.take(i), sep).last().push(s[i]),
            )
        }),
{
    assert(s.take(i + 1).drop_last() =~= s.take(i));
    assert(s.take(i + 1).last() == s[i]);
}

/// A sequence free of the separator is a single piece.
pub proof fn lemma_split_on_free<A>(s: Seq<A>, sep: A)
    requires
        !s.contains(sep),
    ensures
        split_on(s, sep) == seq![s],
    decreases s.len(),
{
    if s.len() > 0 {
        assert(!s.drop_last().contains(sep)) by {
            if s.drop_last().contains(sep) {
                let k = choose|k: int| 0 <= k < s.drop_last().len() && s.drop_last()[k] == sep;
                assert(s[k] == sep);
            }
        }
        lemma_split_on_free(s.drop_last(), sep);
        assert(s.last() != sep) by {
            assert(s[s.len() - 1] == s.last());
        }
        assert(s.drop_last().push(s.last()) =~= s);
        assert(split_on(s, sep) =~= seq![s]);
    } else {
        assert(s =~= Seq::<A>::empty());
    }
}

/// Splitting a concatenation: the last piece of `x` and the first piece of `y` join.
pub proof fn lemma_split_on_add<A>(x: Seq<A>, y: Seq<A>, sep: A)
    ensures
        split_on(x + y, sep) == split_on(x, sep).drop_last() + seq![
            split_on(x, sep).last() + split_on(y, sep)[0],
        ] + split_on(y, sep).drop_first(),
    decreases y.len(),
{
    lemma_split_on_nonempty(x, sep);
    lemma_split_on_nonempty(y, sep);
    let px = split_on(x, sep);
    if y.len() == 0 {
        assert(x + y =~= x);
        assert(split_on(y, sep) =~= seq![Seq::<A>::empty()]);
        assert(px.last() + Seq::<A>::empty() =~= px.last());
        assert(px.drop_last() + seq![px.last()] =~= px);
        assert(split_on(y, sep).drop_first() =~= Seq::<Seq<A>>::empty());
        assert(px.drop_last() + seq![px.last() + split_on(y, sep)[0]] + split_on(y, sep).drop_first()
            =~= px);
    } else {
        let y0 = y.drop_last();
        let c = y.last();
        lemma_split_on_add(x, y0, sep);
        lemma_split_on_nonempty(y0, sep);
        assert((x + y).drop_last() =~= x + y0);
        assert((x + y).last() == c);
        let py0 = split_on(y0, sep);
        let pxy0 = split_on(x + y0, sep);
        if c == sep {
            assert(split_on(y, sep) == py0.push(Seq::empty()));
            assert(split_on(x + y, sep) == pxy0.push(Seq::empty()));
            if py0.len() == 1 {
                assert(split_on(y, sep)[0] == py0[0]);
                assert(split_on(y, sep).drop_first() =~= seq![Seq::<A>::empty()]);
                assert(py0.drop_first() =~= Seq::<Seq<A>>::empty());
            } else {
                assert(split_on(y, sep)[0] == py0[0]);
                assert(split_on(y, sep).drop_first() =~= py0.drop_first().push(Seq::empty()));
            }
            assert(split_on(x + y, sep) =~= px.drop_last() + seq![px.last() + split_on(y, sep)[0]]
                + split_on(y, sep).drop_first());
        } else {
            assert(split_on(y, sep) == py0.update(py0.len() - 1, py0.last().push(c)));
            assert(split_on(x + y, sep) == pxy0.update(pxy0.len() - 1, pxy0.last().push(c)));
            if py0.len() == 1 {
                assert(split_on(y, sep)[0] == py0[0].push(c));
                assert(split_on(y, sep).drop_first() =~= Seq::<Seq<A>>::empty());
                assert(py0.drop_first() =~= Seq::<Seq<A>>::empty());
                assert(px.last() + py0[0].push(c) =~= (px.last() + py0[0]).push(c));
            } else {
                assert(split_on(y, sep)[0] == py0[0]);
                assert(split_on(y, sep).drop_first() =~= py0.drop_first().update(
                    py0.len() - 2,
                    py0.last().push(c),
                ));
            }
            assert(split_on(x + y, sep) =~= px.drop_last() + seq![px.last() + split_on(y, sep)[0]]
                + split_on(y, sep).drop_first());
        }
    }
}

/// `concat_all` of a sequence with one more piece appends that piece.
pub proof fn lemma_concat_all_push<A>(parts: Seq<Seq<A>>, last: Seq<A>)
    ensures
        concat_all(parts.push(last)) == concat_all(parts) + last,
{
    assert(parts.push(last).drop_last() =~= parts);
}

/// `s` with every occurrence of `x` left out.
pub open spec fn remove_all<A>(s: Seq<A>, x: A) -> Seq<A>
    decreases s.len(),
{
    if s.len() == 0 {
        s
    } else if s.last() == x {
        remove_all(s.drop_last(), x)
    } else {
        remove_all(s.drop_last(), x).push(s.last())
    }
}

/// Nothing equal to `x` is left in `remove_all(s, x)`.
pub proof fn lemma_remove_all_free<A>(s: Seq<A>, x: A)
    ensures
        !remove_all(s, x).contains(x),
    decreases s.len(),
{
    if s.len() > 0 {
        lemma_remove_all_free(s.drop_last(), x);
        let r = remove_all(s.drop_last(), x);
        if s.last() != x {
            assert forall|k: int| 0 <= k < r.push(s.last()).len() implies r.push(s.last())[k] != x by {
                if k < r.len() {
                    assert(r[k] != x) by {
                        if r[k] == x {
                            assert(r.contains(x));
                        }
                    }
                }
            }
        }
    }
}

/// Joining the pieces between separators gives the sequence without its separators.
pub proof fn lemma_concat_split_on<A>(s: Seq<A>, sep: A)
    ensures
        concat_all(split_on(s, sep)) == remove_all(s, sep),
    decreases s.len(),
{
    if s.len() == 0 {
        assert(split_on(s, sep) == seq![Seq::<A>::empty()]);
        assert(seq![Seq::<A>::empty()].drop_last() =~= Seq::<Seq<A>>::empty());
        assert(concat_all(Seq::<Seq<A>>::empty()) =~= Seq::<A>::empty());
        assert(concat_all(seq![Seq::<A>::empty()]) =~= Seq::<A>::empty());
        assert(remove_all(s, sep) =~= Seq::<A>::empty());
    } else {
        let p = split_on(s.drop_last(), sep);
        lemma_concat_split_on(s.drop_last(), sep);
        lemma_split_on_nonempty(s.drop_last(), sep);
        if s.last() == sep {
            lemma_concat_all_push(p, Seq::empty());
            assert(concat_all(p) + Seq::<A>::empty() =~= concat_all(p));
        } else {
            let q = p.update(p.len() - 1, p.last().push(s.last()));
            assert(q.drop_last() =~= p.drop_last());
            assert(q.last() == p.last().push(s.last()));
            assert(concat_all(q) =~= concat_all(p).push(s.last()));
        }
    }
}

/// No piece of `split_on(s, sep)` holds the separator.
pub proof fn lemma_split_on_pieces_free<A>(s: Seq<A>, sep: A)
    ensures
        forall|i: int|
            0 <= i < split_on(s, sep).len() ==> !(#[trigger] split_on(s, sep)[i]).contains(sep),
    decreases s.len(),
{
    if s.len() == 0 {
        assert(split_on(s, sep) == seq![Seq::<A>::empty()]);
        assert forall|i: int| 0 <= i < split_on(s, sep).len() implies !(#[trigger] split_on(
            s,
            sep,
        )[i]).contains(sep) by {
            assert(split_on(s, sep)[i] =~= Seq::<A>::empty());
        }
    } else {
        let p = split_on(s.drop_last(), sep);
        lemma_split_on_pieces_free(s.drop_last(), sep);
        lemma_split_on_nonempty(s.drop_last(), sep);
        assert forall|i: int| 0 <= i < split_on(s, sep).len() implies !(#[trigger] split_on(
            s,
            sep,
        )[i]).contains(sep) by {
            let q = split_on(s, sep);
            if s.last() == sep {
                if i < p.len() {
                    assert(q[i] == p[i]);
                } else {
                    assert(q[i] =~= Seq::<A>::empty());
                }
            } else {
                if i < p.len() - 1 {
                    assert(q[i] == p[i]);
                } else {
                    let piece = p[p.len() - 1];
                    assert(!piece.contains(sep));
                    assert(q[i] == piece.push(s.last()));
                    if q[i].contains(sep) {
                        let k = choose|k: int| 0 <= k < q[i].len() && q[i][k] == sep;
                        if k < piece.len() {
                            assert(piece[k] == sep);
                        }
                    }
                }
            }
        }
    }
}

/// Removing an element that does not occur changes nothing.
pub proof fn lemma_remove_all_absent<A>(s: Seq<A>, x: A)
    requires
        !s.contains(x),
    ensures
        remove_all(s, x) == s,
    decreases s.len(),
{
    if s.len() > 0 {
        assert(!s.drop_last().contains(x)) by {
            if s.drop_last().contains(x) {
                let k = choose|k: int| 0 <= k < s.drop_last().len() && s.drop_last()[k] == x;
                assert(s[k] == x);
            }
        }
        lemma_remove_all_absent(s.drop_last(), x);
        assert(s.last() == s[s.len() - 1]);
        assert(s.drop_last().push(s.last()) =~= s);
    }
}

} // verus!
