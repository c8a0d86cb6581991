//! Stretches of the leaves between two cursors, as a traversal from both
//! ends sees them.

use vstd::prelude::*;
use crate::element::{above_start, below_end, within, Bound, Ranked};
use crate::layout::{
    chunk_has, content, cut_out, fresh, lemma_content_at, lemma_content_holds, ordered, valid,
};

verus! {

/// The position `(i, j)` is the cursor `(l, p)` or comes after it.
pub open spec fn at_or_after(l: int, p: int, i: int, j: int) -> bool {
    l < i || (l == i && p <= j)
}

/// The position `(i, j)` comes before the cursor `(l, p)`.
pub open spec fn before(i: int, j: int, l: int, p: int) -> bool {
    i < l || (i == l && j < p)
}

/// A cursor at rest: on an element, or past the last leaf.
pub open spec fn settled<T>(ls: Seq<Seq<T>>, l: int, p: int) -> bool {
    valid(ls, l, p) || (l == ls.len() && p == 0)
}

/// An element of rank `r` lies from the cursor `(fl, fp)` on and before the
/// cursor `(bl, bp)`.
pub open spec fn in_span<T: Ranked>(
    ls: Seq<Seq<T>>,
    fl: int,
    fp: int,
    bl: int,
    bp: int,
    r: int,
) -> bool {
    exists|i: int, j: int|
        #[trigger] valid(ls, i, j) && at_or_after(fl, fp, i, j) && before(i, j, bl, bp)
            && ls[i][j].rank() == r
}

/// The elements from the cursor `(fl, fp)` on and before the cursor
/// `(bl, bp)`, each under its rank.
pub open spec fn span<T: Ranked>(ls: Seq<Seq<T>>, fl: int, fp: int, bl: int, bp: int) -> Map<
    int,
    T,
> {
    Map::new(|r: int| in_span(ls, fl, fp, bl, bp, r), |r: int| content(ls)[r])
}

/// Between a cursor and one that does not come after it lies nothing.
pub proof fn lemma_span_empty<T: Ranked>(ls: Seq<Seq<T>>, fl: int, fp: int, bl: int, bp: int)
    requires
        !before(fl, fp, bl, bp),
    ensures
        span(ls, fl, fp, bl, bp) == Map::<int, T>::empty(),
{
    assert(span(ls, fl, fp, bl, bp) =~= Map::<int, T>::empty());
}

/// From the first cursor to past the last leaf lies everything.
pub proof fn lemma_span_all<T: Ranked>(ls: Seq<Seq<T>>)
    ensures
        span(ls, 0, 0, ls.len() as int, 0) == content(ls),
{
    let s = span(ls, 0, 0, ls.len() as int, 0);
    assert forall|r: int| content(ls).dom().contains(r) implies s.dom().contains(r) by {
        let at = lemma_content_holds(ls, r);
        assert(valid(ls, at.0, at.1));
    }
    assert(s =~= content(ls));
}

/// The element under the front cursor is the least of the span, and the span
/// from the next position on is the span without it.
pub proof fn lemma_span_pop_front<T: Ranked>(
    ls: Seq<Seq<T>>,
    fl: int,
    fp: int,
    bl: int,
    bp: int,
    nl: int,
    np: int,
)
    requires
        ordered(ls),
        valid(ls, fl, fp),
        before(fl, fp, bl, bp),
        (nl == fl && np == fp + 1 && np < ls[fl].len()) || (nl == fl + 1 && np == 0 && fp + 1
            == ls[fl].len()),
    ensures
        span(ls, fl, fp, bl, bp).dom().contains(ls[fl][fp].rank()),
        span(ls, fl, fp, bl, bp)[ls[fl][fp].rank()] == ls[fl][fp],
        forall|r: int| #[trigger]
            span(ls, fl, fp, bl, bp).dom().contains(r) ==> ls[fl][fp].rank() <= r,
        span(ls, nl, np, bl, bp) == span(ls, fl, fp, bl, bp).remove(ls[fl][fp].rank()),
{
    let x = ls[fl][fp];
    let old_span = span(ls, fl, fp, bl, bp);
    let new_span = span(ls, nl, np, bl, bp);
    lemma_content_at(ls, fl, fp);
    assert(in_span(ls, fl, fp, bl, bp, x.rank()));
    assert forall|r: int| #[trigger] old_span.dom().contains(r) implies x.rank() <= r by {
        let (i, j) = choose|i: int, j: int|
            #[trigger] valid(ls, i, j) && at_or_after(fl, fp, i, j) && before(i, j, bl, bp)
                && ls[i][j].rank() == r;
        assert(valid(ls, i, j));
    }
    let want = old_span.remove(x.rank());
    assert forall|r: int| new_span.dom().contains(r) implies want.dom().contains(r) by {
        let (i, j) = choose|i: int, j: int|
            #[trigger] valid(ls, i, j) && at_or_after(nl, np, i, j) && before(i, j, bl, bp)
                && ls[i][j].rank() == r;
        assert(valid(ls, i, j) && at_or_after(fl, fp, i, j));
        assert(x.rank() < ls[i][j].rank());
    }
    assert forall|r: int| want.dom().contains(r) implies new_span.dom().contains(r) by {
        let (i, j) = choose|i: int, j: int|
            #[trigger] valid(ls, i, j) && at_or_after(fl, fp, i, j) && before(i, j, bl, bp)
                && ls[i][j].rank() == r;
        assert(valid(ls, i, j) && at_or_after(nl, np, i, j));
    }
    assert(new_span =~= want);
}

/// The element just before the back cursor is the greatest of the span, and
/// the span that ends at it is the span without it.
pub proof fn lemma_span_pop_back<T: Ranked>(
    ls: Seq<Seq<T>>,
    fl: int,
    fp: int,
    bl: int,
    bp: int,
    nl: int,
    np: int,
)
    requires
        ordered(ls),
        valid(ls, fl, fp),
        before(fl, fp, bl, bp),
        valid(ls, nl, np),
        (nl == bl && np == bp - 1) || (nl == bl - 1 && bp == 0 && np + 1 == ls[nl].len()),
    ensures
        span(ls, fl, fp, bl, bp).dom().contains(ls[nl][np].rank()),
        span(ls, fl, fp, bl, bp)[ls[nl][np].rank()] == ls[nl][np],
        forall|r: int| #[trigger]
            span(ls, fl, fp, bl, bp).dom().contains(r) ==> r <= ls[nl][np].rank(),
        span(ls, fl, fp, nl, np) == span(ls, fl, fp, bl, bp).remove(ls[nl][np].rank()),
{
    let x = ls[nl][np];
    let old_span = span(ls, fl, fp, bl, bp);
    let new_span = span(ls, fl, fp, nl, np);
    lemma_content_at(ls, nl, np);
    assert(in_span(ls, fl, fp, bl, bp, x.rank()));
    assert forall|r: int| #[trigger] old_span.dom().contains(r) implies r <= x.rank() by {
        let (i, j) = choose|i: int, j: int|
            #[trigger] valid(ls, i, j) && at_or_after(fl, fp, i, j) && before(i, j, bl, bp)
                && ls[i][j].rank() == r;
        assert(valid(ls, i, j));
    }
    let want = old_span.remove(x.rank());
    assert forall|r: int| new_span.dom().contains(r) implies want.dom().contains(r) by {
        let (i, j) = choose|i: int, j: int|
            #[trigger] valid(ls, i, j) && at_or_after(fl, fp, i, j) && before(i, j, nl, np)
                && ls[i][j].rank() == r;
        assert(valid(ls, i, j) && before(i, j, bl, bp));
        assert(ls[i][j].rank() < x.rank());
    }
    assert forall|r: int| want.dom().contains(r) implies new_span.dom().contains(r) by {
        let (i, j) = choose|i: int, j: int|
            #[trigger] valid(ls, i, j) && at_or_after(fl, fp, i, j) && before(i, j, bl, bp)
                && ls[i][j].rank() == r;
        assert(valid(ls, i, j) && before(i, j, nl, np));
    }
    assert(new_span =~= want);
}

/// Between the first position inside a range and the first position past it
/// lie the elements of the range.
pub proof fn lemma_span_within<T: Ranked, Q: Ranked>(
    ls: Seq<Seq<T>>,
    fl: int,
    fp: int,
    bl: int,
    bp: int,
    start: Bound<&Q>,
    end: Bound<&Q>,
)
    requires
        forall|i: int, j: int| #[trigger]
            valid(ls, i, j) ==> (at_or_after(fl, fp, i, j) <==> above_start(
                start,
                ls[i][j].rank(),
            )),
        forall|i: int, j: int| #[trigger]
            valid(ls, i, j) ==> (before(i, j, bl, bp) <==> below_end(end, ls[i][j].rank())),
    ensures
        span(ls, fl, fp, bl, bp) == content(ls).restrict(
            Set::new(|r: int| within(start, end, r)),
        ),
{
    let s = span(ls, fl, fp, bl, bp);
    let want = content(ls).restrict(Set::new(|r: int| within(start, end, r)));
    assert forall|r: int| s.dom().contains(r) implies want.dom().contains(r) by {
        let (i, j) = choose|i: int, j: int|
            #[trigger] valid(ls, i, j) && at_or_after(fl, fp, i, j) && before(i, j, bl, bp)
                && ls[i][j].rank() == r;
        assert(valid(ls, i, j));
    }
    assert forall|r: int| want.dom().contains(r) implies s.dom().contains(r) by {
        let at = lemma_content_holds(ls, r);
        assert(valid(ls, at.0, at.1));
    }
    assert(s =~= want);
}

/// The rank `r` lies in the range and past the first `k` leaves, which are
/// filed under `keys`.
pub open spec fn gone<Q: Ranked>(
    keys: Seq<int>,
    k: int,
    start: Bound<&Q>,
    end: Bound<&Q>,
    r: int,
) -> bool {
    within(start, end, r) && (k == 0 || r > keys[k - 1])
}

/// The cursors `(fl, fp)` and `(bl, bp)` mark a range in the leaves: the
/// first is the first position inside it, the second the first position past
/// it.
pub open spec fn marks<T: Ranked, Q: Ranked>(
    ls: Seq<Seq<T>>,
    fl: int,
    fp: int,
    bl: int,
    bp: int,
    start: Bound<&Q>,
    end: Bound<&Q>,
) -> bool {
    &&& forall|i: int, j: int| #[trigger]
        valid(ls, i, j) ==> (at_or_after(fl, fp, i, j) <==> above_start(start, ls[i][j].rank()))
    &&& forall|i: int, j: int| #[trigger]
        valid(ls, i, j) ==> (before(i, j, bl, bp) <==> below_end(end, ls[i][j].rank()))
}

/// Where the cursor inside a range does not come before the cursor past it,
/// the leaves hold nothing of the range.
pub proof fn lemma_range_void<T: Ranked, Q: Ranked>(
    ls: Seq<Seq<T>>,
    fl: int,
    fp: int,
    bl: int,
    bp: int,
    start: Bound<&Q>,
    end: Bound<&Q>,
)
    requires
        marks(ls, fl, fp, bl, bp, start, end),
        !before(fl, fp, bl, bp),
    ensures
        content(ls).remove_keys(Set::new(|r: int| within(start, end, r))) == content(ls),
{
    assert forall|r: int| content(ls).dom().contains(r) implies !within(start, end, r) by {
        let at = lemma_content_holds(ls, r);
        assert(valid(ls, at.0, at.1));
    }
    assert(content(ls).remove_keys(Set::new(|r: int| within(start, end, r))) =~= content(ls));
}

/// Past the last leaf that a range touches, the leaves hold nothing of the
/// range.
pub proof fn lemma_range_first<T: Ranked, Q: Ranked>(
    keys: Seq<int>,
    ls: Seq<Seq<T>>,
    fl: int,
    fp: int,
    bl: int,
    bp: int,
    start: Bound<&Q>,
    end: Bound<&Q>,
    k: int,
)
    requires
        ordered(ls),
        fresh(keys, ls),
        marks(ls, fl, fp, bl, bp, start, end),
        0 < k <= ls.len(),
        k == ls.len() || k == bl + 1,
    ensures
        content(ls).remove_keys(Set::new(|r: int| gone(keys, k, start, end, r))) == content(ls),
{
    assert forall|r: int| content(ls).dom().contains(r) implies !gone(keys, k, start, end, r) by {
        let at = lemma_content_holds(ls, r);
        assert(valid(ls, at.0, at.1));
        assert(valid(ls, at.0, ls[at.0].len() - 1));
        assert(valid(ls, k - 1, ls[k - 1].len() - 1));
    }
    assert(content(ls).remove_keys(Set::new(|r: int| gone(keys, k, start, end, r))) =~= content(
        ls,
    ));
}

/// What a range holds past the first `k - 1` leaves is what it holds past
/// the first `k`, and the stretch of leaf `k - 1` between the cursors.
pub proof fn lemma_range_step<T: Ranked, Q: Ranked>(
    keys: Seq<int>,
    ls: Seq<Seq<T>>,
    fl: int,
    fp: int,
    bl: int,
    bp: int,
    start: Bound<&Q>,
    end: Bound<&Q>,
    k: int,
    a: int,
    b: int,
)
    requires
        ordered(ls),
        fresh(keys, ls),
        marks(ls, fl, fp, bl, bp, start, end),
        0 <= fl < k <= ls.len(),
        k - 1 <= bl,
        a == (if k - 1 == fl { fp } else { 0 }),
        b == (if k - 1 == bl { bp } else { ls[k - 1].len() as int }),
    ensures
        forall|r: int| #[trigger]
            content(ls).dom().contains(r) ==> ((gone(keys, k, start, end, r) || chunk_has(
                ls[k - 1],
                a,
                b,
                r,
            )) <==> gone(keys, k - 1, start, end, r)),
{
    let i = k - 1;
    assert(valid(ls, i, ls[i].len() - 1));
    assert forall|r: int| #[trigger] content(ls).dom().contains(r) implies ((gone(
        keys,
        k,
        start,
        end,
        r,
    ) || chunk_has(ls[i], a, b, r)) <==> gone(keys, i, start, end, r)) by {
        let at = lemma_content_holds(ls, r);
        assert(valid(ls, at.0, at.1));
        assert(valid(ls, at.0, ls[at.0].len() - 1));
        if i > 0 {
            assert(valid(ls, i - 1, ls[i - 1].len() - 1));
        }
        if chunk_has(ls[i], a, b, r) {
            let j = choose|j: int| a <= j < b && 0 <= j < ls[i].len() && (#[trigger] ls[i][j]).rank() == r;
            assert(valid(ls, i, j));
        }
        if gone(keys, i, start, end, r) && !gone(keys, k, start, end, r) {
            assert(at.0 == i);
            assert(a <= at.1 < b);
        }
    }
}

/// Past the leaves before the first that a range touches, the leaves hold
/// all of the range.
pub proof fn lemma_range_last<T: Ranked, Q: Ranked>(
    keys: Seq<int>,
    ls: Seq<Seq<T>>,
    fl: int,
    fp: int,
    bl: int,
    bp: int,
    start: Bound<&Q>,
    end: Bound<&Q>,
)
    requires
        ordered(ls),
        fresh(keys, ls),
        marks(ls, fl, fp, bl, bp, start, end),
        0 <= fl <= ls.len(),
    ensures
        content(ls).remove_keys(Set::new(|r: int| gone(keys, fl, start, end, r))) == content(
            ls,
        ).remove_keys(Set::new(|r: int| within(start, end, r))),
{
    assert forall|r: int| content(ls).dom().contains(r) && within(start, end, r) implies gone(
        keys,
        fl,
        start,
        end,
        r,
    ) by {
        let at = lemma_content_holds(ls, r);
        assert(valid(ls, at.0, at.1));
        if fl > 0 {
            assert(valid(ls, fl - 1, ls[fl - 1].len() - 1));
        }
    }
    assert(content(ls).remove_keys(Set::new(|r: int| gone(keys, fl, start, end, r)))
        =~= content(ls).remove_keys(Set::new(|r: int| within(start, end, r))));
}

/// What is left of leaf `i` when the stretch between the cursors
/// `(fl, fp)` and `(bl, bp)` is taken out of the leaves: the leaf without its
/// part of the stretch, or nothing where that is all of it.
pub open spec fn piece<T>(ls: Seq<Seq<T>>, i: int, fl: int, fp: int, bl: int, bp: int) -> Seq<
    Seq<T>,
> {
    let a = if i == fl { fp } else { 0 };
    let b = if i == bl { bp } else { ls[i].len() as int };
    let left = cut_out(ls[i], a, b);
    if left.len() > 0 {
        seq![left]
    } else {
        Seq::empty()
    }
}

/// The leaves with the stretch between the cursors `(fl, fp)` and `(bl, bp)`
/// taken out of the leaves from `k` on: the first `k` leaves, what is left of
/// the leaf where the stretch begins and of the leaf where it ends, and the
/// leaves past the stretch.
pub open spec fn cut_from<T>(ls: Seq<Seq<T>>, k: int, fl: int, fp: int, bl: int, bp: int) -> Seq<
    Seq<T>,
> {
    let last = if bl < ls.len() { bl } else { ls.len() - 1 };
    ls.take(k) + (if k <= fl { piece(ls, fl, fl, fp, bl, bp) } else { Seq::empty() }) + (if k <= bl
        && fl < bl < ls.len() { piece(ls, bl, fl, fp, bl, bp) } else { Seq::empty() }) + ls.skip(
        last + 1,
    )
}

/// Taking its part of the stretch out of leaf `k - 1`, or the leaf out of
/// the index where that is all of it, takes the stretch out of the leaves
/// from `k - 1` on.
pub proof fn lemma_cut_step<T>(ls: Seq<Seq<T>>, k: int, fl: int, fp: int, bl: int, bp: int)
    requires
        valid(ls, fl, fp),
        settled(ls, bl, bp),
        before(fl, fp, bl, bp),
        fl < k <= ls.len(),
        k <= bl + 1,
    ensures
        ({
            let i = k - 1;
            let a = if i == fl { fp } else { 0 };
            let b = if i == bl { bp } else { ls[i].len() as int };
            let now = cut_from(ls, k, fl, fp, bl, bp);
            &&& k <= now.len()
            &&& now.take(k) == ls.take(k)
            &&& 0 <= a <= b <= ls[i].len()
            &&& a == 0 && b == ls[i].len() ==> now.remove(i) == cut_from(ls, i, fl, fp, bl, bp)
            &&& !(a == 0 && b == ls[i].len()) ==> now.update(i, cut_out(ls[i], a, b)) == cut_from(
                ls,
                i,
                fl,
                fp,
                bl,
                bp,
            )
        }),
{
    let i = k - 1;
    let a = if i == fl { fp } else { 0 };
    let b = if i == bl { bp } else { ls[i].len() as int };
    let last = if bl < ls.len() { bl } else { ls.len() - 1 };
    let now = cut_from(ls, k, fl, fp, bl, bp);
    let next = cut_from(ls, i, fl, fp, bl, bp);
    let tail = ls.skip(last + 1);
    let back = if k <= bl && fl < bl < ls.len() {
        piece(ls, bl, fl, fp, bl, bp)
    } else {
        Seq::empty()
    };
    assert(now =~= ls.take(k) + back + tail);
    assert(now.take(k) =~= ls.take(k));
    if i == bl {
        assert(valid(ls, bl, bp));
    }
    let left = cut_out(ls[i], a, b);
    if a == 0 && b == ls[i].len() {
        assert(left.len() == 0);
        assert(i != bl);
        assert(next =~= ls.take(i) + back + tail);
        assert(now.remove(i) =~= ls.take(i) + back + tail);
    } else {
        assert(left.len() > 0);
        assert(i == fl || i == bl);
        if i == fl {
            assert(next =~= ls.take(i) + seq![left] + back + tail);
        } else {
            assert(back =~= Seq::<Seq<T>>::empty());
            assert(piece(ls, bl, fl, fp, bl, bp) =~= seq![left]);
            assert(next =~= ls.take(i) + seq![left] + tail);
        }
        assert(now.update(i, left) =~= ls.take(i) + seq![left] + back + tail);
    }
}

} // verus!
