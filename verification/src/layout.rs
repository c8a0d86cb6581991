//! The leaves of a tree as a sequence of sequences: which elements they hold
//! together, how many, and under which ranks a replica files them.

use vstd::prelude::*;
use crate::element::Ranked;
use crate::node::{ascending, is_cut};

verus! {

/// `(i, j)` names an element: position `j` of leaf `i`.
pub open spec fn valid<T>(ls: Seq<Seq<T>>, i: int, j: int) -> bool {
    0 <= i < ls.len() && 0 <= j < ls[i].len()
}

/// Read leaf after leaf, the ranks rise strictly from each element to the
/// next.
pub open spec fn ordered<T: Ranked>(ls: Seq<Seq<T>>) -> bool {
    forall|i: int, j: int, k: int, l: int|
        #[trigger] valid(ls, i, j) && #[trigger] valid(ls, k, l) && (i < k || (i == k && j < l))
            ==> ls[i][j].rank() < ls[k][l].rank()
}

/// Some leaf holds an element of rank `r`.
pub open spec fn holds_rank<T: Ranked>(ls: Seq<Seq<T>>, r: int) -> bool {
    exists|i: int, j: int| #[trigger] valid(ls, i, j) && ls[i][j].rank() == r
}

/// The element of rank `r`.
pub open spec fn element_of<T: Ranked>(ls: Seq<Seq<T>>, r: int) -> T {
    let (i, j) = choose|i: int, j: int| #[trigger] valid(ls, i, j) && ls[i][j].rank() == r;
    ls[i][j]
}

/// The elements of all leaves, each under its rank.
pub open spec fn content<T: Ranked>(ls: Seq<Seq<T>>) -> Map<int, T> {
    Map::new(|r: int| holds_rank(ls, r), |r: int| element_of(ls, r))
}

/// The number of elements in all leaves.
pub open spec fn total<T>(ls: Seq<Seq<T>>) -> nat
    decreases ls.len(),
{
    if ls.len() == 0 {
        0
    } else {
        total(ls.drop_last()) + ls.last().len()
    }
}

/// Some leaf is filed under the rank `r`.
pub open spec fn files_rank(keys: Seq<int>, r: int) -> bool {
    exists|i: int| 0 <= i < keys.len() && #[trigger] keys[i] == r
}

/// The leaves, each under the rank it is filed under.
pub open spec fn shape_of<T>(keys: Seq<int>, ls: Seq<Seq<T>>) -> Map<int, Seq<T>> {
    Map::new(
        |r: int| files_rank(keys, r),
        |r: int| ls[choose|i: int| 0 <= i < keys.len() && #[trigger] keys[i] == r],
    )
}

/// The ranks in `keys` rise strictly.
pub open spec fn rising(keys: Seq<int>) -> bool {
    forall|i: int, j: int| 0 <= i < j < keys.len() ==> #[trigger] keys[i] < #[trigger] keys[j]
}

/// In ordered leaves an element is found under its rank.
pub proof fn lemma_content_at<T: Ranked>(ls: Seq<Seq<T>>, i: int, j: int)
    requires
        ordered(ls),
        valid(ls, i, j),
    ensures
        content(ls).dom().contains(ls[i][j].rank()),
        content(ls)[ls[i][j].rank()] == ls[i][j],
{
    let r = ls[i][j].rank();
    assert(holds_rank(ls, r));
    let (a, b) = choose|a: int, b: int| #[trigger] valid(ls, a, b) && ls[a][b].rank() == r;
    assert(valid(ls, a, b) && ls[a][b].rank() == r);
    if a != i || b != j {
        if a < i || (a == i && b < j) {
            assert(ls[a][b].rank() < ls[i][j].rank());
        } else {
            assert(ls[i][j].rank() < ls[a][b].rank());
        }
    }
}

/// A map that files every element of ordered leaves under its rank, and
/// nothing else, is their content.
pub proof fn lemma_content_is<T: Ranked>(ls: Seq<Seq<T>>, m: Map<int, T>)
    requires
        ordered(ls),
        forall|i: int, j: int| #[trigger]
            valid(ls, i, j) ==> m.dom().contains(ls[i][j].rank()) && m[ls[i][j].rank()]
                == ls[i][j],
        forall|r: int| #[trigger] m.dom().contains(r) ==> holds_rank(ls, r),
    ensures
        content(ls) == m,
{
    assert forall|r: int| content(ls).dom().contains(r) implies m.dom().contains(r) by {
        let (a, b) = choose|a: int, b: int| #[trigger] valid(ls, a, b) && ls[a][b].rank() == r;
        assert(valid(ls, a, b));
    }
    assert forall|r: int| m.dom().contains(r) implies content(ls).dom().contains(r)
        && content(ls)[r] == m[r] by {
        assert(holds_rank(ls, r));
        let (a, b) = choose|a: int, b: int| #[trigger] valid(ls, a, b) && ls[a][b].rank() == r;
        assert(valid(ls, a, b));
        lemma_content_at(ls, a, b);
    }
    assert(content(ls) =~= m);
}

/// A rank found in the content is the rank of some element.
pub proof fn lemma_content_holds<T: Ranked>(ls: Seq<Seq<T>>, r: int) -> (at: (int, int))
    requires
        content(ls).dom().contains(r),
    ensures
        valid(ls, at.0, at.1),
        ls[at.0][at.1].rank() == r,
{
    choose|a: int, b: int| #[trigger] valid(ls, a, b) && ls[a][b].rank() == r
}

/// With rising ranks a leaf is found under the rank it is filed under.
pub proof fn lemma_shape_at<T>(keys: Seq<int>, ls: Seq<Seq<T>>, i: int)
    requires
        rising(keys),
        0 <= i < keys.len(),
    ensures
        shape_of(keys, ls).dom().contains(keys[i]),
        shape_of(keys, ls)[keys[i]] == ls[i],
{
    let r = keys[i];
    assert(files_rank(keys, r));
    let a = choose|a: int| 0 <= a < keys.len() && #[trigger] keys[a] == r;
    if a < i {
        assert(keys[a] < keys[i]);
    } else if i < a {
        assert(keys[i] < keys[a]);
    }
}

/// A map that files every leaf under its rank, and nothing else, is their
/// shape.
pub proof fn lemma_shape_is<T>(keys: Seq<int>, ls: Seq<Seq<T>>, m: Map<int, Seq<T>>)
    requires
        rising(keys),
        forall|i: int|
            0 <= i < keys.len() ==> m.dom().contains(#[trigger] keys[i]) && m[keys[i]] == ls[i],
        forall|r: int| #[trigger] m.dom().contains(r) ==> files_rank(keys, r),
    ensures
        shape_of(keys, ls) == m,
{
    assert forall|r: int| shape_of(keys, ls).dom().contains(r) implies m.dom().contains(r) by {
        let a = choose|a: int| 0 <= a < keys.len() && #[trigger] keys[a] == r;
        assert(m.dom().contains(keys[a]));
    }
    assert forall|r: int| m.dom().contains(r) implies shape_of(keys, ls).dom().contains(r)
        && shape_of(keys, ls)[r] == m[r] by {
        assert(files_rank(keys, r));
        let a = choose|a: int| 0 <= a < keys.len() && #[trigger] keys[a] == r;
        lemma_shape_at(keys, ls, a);
    }
    assert(shape_of(keys, ls) =~= m);
}

/// Changing one leaf changes the count by the change of its length.
pub proof fn lemma_total_update<T>(ls: Seq<Seq<T>>, i: int, s: Seq<T>)
    requires
        0 <= i < ls.len(),
    ensures
        total(ls.update(i, s)) == total(ls) - ls[i].len() + s.len(),
    decreases ls.len(),
{
    if i == ls.len() - 1 {
        assert(ls.update(i, s).drop_last() =~= ls.drop_last());
    } else {
        lemma_total_update(ls.drop_last(), i, s);
        assert(ls.update(i, s).drop_last() =~= ls.drop_last().update(i, s));
    }
}

/// A new leaf adds its length to the count.
pub proof fn lemma_total_insert<T>(ls: Seq<Seq<T>>, i: int, s: Seq<T>)
    requires
        0 <= i <= ls.len(),
    ensures
        total(ls.insert(i, s)) == total(ls) + s.len(),
    decreases ls.len(),
{
    if i == ls.len() {
        assert(ls.insert(i, s).drop_last() =~= ls);
    } else {
        lemma_total_insert(ls.drop_last(), i, s);
        assert(ls.insert(i, s).drop_last() =~= ls.drop_last().insert(i, s));
    }
}

/// A leaf that goes takes its length from the count.
pub proof fn lemma_total_remove<T>(ls: Seq<Seq<T>>, i: int)
    requires
        0 <= i < ls.len(),
    ensures
        total(ls.remove(i)) == total(ls) - ls[i].len(),
    decreases ls.len(),
{
    if i == ls.len() - 1 {
        assert(ls.remove(i) =~= ls.drop_last());
    } else {
        lemma_total_remove(ls.drop_last(), i);
        assert(ls.remove(i).drop_last() =~= ls.drop_last().remove(i));
    }
}

/// Leaves of at most `cap` elements each hold at most `cap` times their
/// number.
pub proof fn lemma_total_bound<T>(ls: Seq<Seq<T>>, cap: nat)
    requires
        forall|i: int| 0 <= i < ls.len() ==> (#[trigger] ls[i]).len() <= cap,
    ensures
        total(ls) <= ls.len() * cap,
    decreases ls.len(),
{
    if ls.len() > 0 {
        lemma_total_bound(ls.drop_last(), cap);
        assert(ls.len() * cap == (ls.len() - 1) * cap + cap) by (nonlinear_arith);
    }
}

/// The first leaves hold no more than all of them.
pub proof fn lemma_total_take<T>(ls: Seq<Seq<T>>, n: int)
    requires
        0 <= n <= ls.len(),
    ensures
        total(ls.take(n)) <= total(ls),
        n < ls.len() ==> total(ls.take(n + 1)) == total(ls.take(n)) + ls[n].len(),
        n == ls.len() ==> total(ls.take(n)) == total(ls),
    decreases ls.len(),
{
    if n == ls.len() {
        assert(ls.take(n) =~= ls);
    } else {
        lemma_total_take(ls.drop_last(), n);
        assert(ls.take(n) =~= ls.drop_last().take(n));
        assert(ls.take(n + 1).drop_last() =~= ls.take(n));
    }
}

/// Leaf `slot` is where an element of rank `r` belongs: every leaf before it
/// is filed under a lesser rank, and it is itself filed under `r` or more
/// unless it is the last.
pub open spec fn targets(keys: Seq<int>, slot: int, r: int) -> bool {
    &&& 0 <= slot < keys.len()
    &&& forall|i: int| 0 <= i < slot ==> #[trigger] keys[i] < r
    &&& keys[slot] >= r || slot == keys.len() - 1
}

/// Every leaf has an element, and is filed under the rank of its last.
pub open spec fn fresh<T: Ranked>(keys: Seq<int>, ls: Seq<Seq<T>>) -> bool {
    &&& keys.len() == ls.len()
    &&& forall|i: int|
        0 <= i < ls.len() ==> (#[trigger] ls[i]).len() > 0 && keys[i] == ls[i].last().rank()
}

/// The leaves before the one where a rank belongs hold lesser ranks, those
/// after it greater ones.
pub proof fn lemma_elsewhere<T: Ranked>(keys: Seq<int>, ls: Seq<Seq<T>>, slot: int, r: int)
    requires
        ordered(ls),
        fresh(keys, ls),
        targets(keys, slot, r),
    ensures
        forall|a: int, b: int| #[trigger] valid(ls, a, b) && a < slot ==> ls[a][b].rank() < r,
        forall|a: int, b: int| #[trigger] valid(ls, a, b) && a > slot ==> ls[a][b].rank() > r,
{
    assert forall|a: int, b: int| #[trigger] valid(ls, a, b) && a < slot implies ls[a][b].rank()
        < r by {
        assert(ls[a].len() > 0);
        assert(valid(ls, a, ls[a].len() - 1));
        assert(keys[a] < r);
    }
    assert forall|a: int, b: int| #[trigger] valid(ls, a, b) && a > slot implies ls[a][b].rank()
        > r by {
        assert(ls[slot].len() > 0);
        assert(valid(ls, slot, ls[slot].len() - 1));
    }
}

/// Ordered leaves that are filed under their last elements are filed under
/// rising ranks.
pub proof fn lemma_fresh_rising<T: Ranked>(keys: Seq<int>, ls: Seq<Seq<T>>)
    requires
        ordered(ls),
        fresh(keys, ls),
    ensures
        rising(keys),
{
    assert forall|i: int, j: int| 0 <= i < j < keys.len() implies #[trigger] keys[i]
        < #[trigger] keys[j] by {
        assert(ls[i].len() > 0 && ls[j].len() > 0);
        assert(valid(ls, i, ls[i].len() - 1));
        assert(valid(ls, j, ls[j].len() - 1));
    }
}

/// An element of rank `r` belongs in leaf `i`: the leaves before it hold
/// lesser ranks, those after it greater ones.
pub open spec fn belongs<T: Ranked>(ls: Seq<Seq<T>>, i: int, r: int) -> bool {
    &&& 0 <= i < ls.len()
    &&& forall|a: int, b: int| #[trigger] valid(ls, a, b) && a < i ==> ls[a][b].rank() < r
    &&& forall|a: int, b: int| #[trigger] valid(ls, a, b) && a > i ==> ls[a][b].rank() > r
}

/// The rank `r` belongs in leaf `i`, at `idx`, and the leaf has no element of
/// that rank.
pub open spec fn missing_at<T: Ranked>(ls: Seq<Seq<T>>, i: int, idx: int, r: int) -> bool {
    &&& belongs(ls, i, r)
    &&& is_cut(ls[i], r, idx)
    &&& !(idx < ls[i].len() && ls[i][idx].rank() == r)
}

/// `s` with `v` at `idx`: in the place of the element there, where that has
/// the rank of `v`, else before it.
pub open spec fn put_at<T: Ranked>(s: Seq<T>, idx: int, v: T) -> Seq<T> {
    if 0 <= idx < s.len() && s[idx].rank() == v.rank() {
        s.update(idx, v)
    } else {
        s.insert(idx, v)
    }
}

/// `ls` with leaf `i` parted at its midpoint into two leaves.
pub open spec fn halved<T>(ls: Seq<Seq<T>>, i: int) -> Seq<Seq<T>> {
    let mid = (ls[i].len() / 2) as int;
    ls.update(i, ls[i].subrange(0, mid)).insert(i + 1, ls[i].subrange(mid, ls[i].len() as int))
}

/// An element put in at its place in its leaf keeps the leaves ordered and
/// joins their content.
pub proof fn lemma_leaf_insert<T: Ranked>(ls: Seq<Seq<T>>, i: int, idx: int, v: T)
    requires
        ordered(ls),
        missing_at(ls, i, idx, v.rank()),
    ensures
        ordered(ls.update(i, ls[i].insert(idx, v))),
        !content(ls).dom().contains(v.rank()),
        content(ls.update(i, ls[i].insert(idx, v))) == content(ls).insert(v.rank(), v),
        total(ls.update(i, ls[i].insert(idx, v))) == total(ls) + 1,
{
    let s = ls[i];
    let r = v.rank();
    let new = ls.update(i, s.insert(idx, v));
    assert forall|a: int, b: int| #[trigger] valid(ls, a, b) implies ls[a][b].rank() != r by {
        if a == i && b >= idx {
            if b > idx {
                assert(valid(ls, i, idx));
            }
        }
    }
    assert forall|a: int, b: int, k: int, l: int|
        #[trigger] valid(new, a, b) && #[trigger] valid(new, k, l) && (a < k || (a == k && b
            < l)) implies new[a][b].rank() < new[k][l].rank() by {
        let b0 = if a == i && b > idx { b - 1 } else { b };
        let l0 = if k == i && l > idx { l - 1 } else { l };
        if a == i && b == idx {
            assert(valid(ls, k, l0));
        } else if k == i && l == idx {
            assert(valid(ls, a, b0));
        } else {
            assert(valid(ls, a, b0));
            assert(valid(ls, k, l0));
        }
    }
    if content(ls).dom().contains(r) {
        let at = lemma_content_holds(ls, r);
    }
    let m = content(ls).insert(r, v);
    assert forall|a: int, b: int| #[trigger] valid(new, a, b) implies m.dom().contains(
        new[a][b].rank(),
    ) && m[new[a][b].rank()] == new[a][b] by {
        if !(a == i && b == idx) {
            let b0 = if a == i && b > idx { b - 1 } else { b };
            assert(valid(ls, a, b0));
            lemma_content_at(ls, a, b0);
        }
    }
    assert forall|q: int| #[trigger] m.dom().contains(q) implies holds_rank(new, q) by {
        if q == r {
            assert(valid(new, i, idx));
        } else {
            let at = lemma_content_holds(ls, q);
            let b1 = if at.0 == i && at.1 >= idx { at.1 + 1 } else { at.1 };
            assert(valid(new, at.0, b1));
        }
    }
    lemma_content_is(new, m);
    lemma_total_update(ls, i, s.insert(idx, v));
}

/// An element put in the place of one of its own rank keeps the leaves
/// ordered and takes its place in their content.
pub proof fn lemma_leaf_replace<T: Ranked>(ls: Seq<Seq<T>>, i: int, idx: int, v: T)
    requires
        ordered(ls),
        valid(ls, i, idx),
        ls[i][idx].rank() == v.rank(),
    ensures
        ordered(ls.update(i, ls[i].update(idx, v))),
        content(ls).dom().contains(v.rank()),
        content(ls)[v.rank()] == ls[i][idx],
        content(ls.update(i, ls[i].update(idx, v))) == content(ls).insert(v.rank(), v),
        total(ls.update(i, ls[i].update(idx, v))) == total(ls),
{
    let s = ls[i];
    let r = v.rank();
    let new = ls.update(i, s.update(idx, v));
    assert forall|a: int, b: int, k: int, l: int|
        #[trigger] valid(new, a, b) && #[trigger] valid(new, k, l) && (a < k || (a == k && b
            < l)) implies new[a][b].rank() < new[k][l].rank() by {
        assert(valid(ls, a, b));
        assert(valid(ls, k, l));
    }
    lemma_content_at(ls, i, idx);
    let m = content(ls).insert(r, v);
    assert forall|a: int, b: int| #[trigger] valid(new, a, b) implies m.dom().contains(
        new[a][b].rank(),
    ) && m[new[a][b].rank()] == new[a][b] by {
        assert(valid(ls, a, b));
        lemma_content_at(ls, a, b);
        if !(a == i && b == idx) {
            if a < i || (a == i && b < idx) {
                assert(ls[a][b].rank() < ls[i][idx].rank());
            } else {
                assert(ls[i][idx].rank() < ls[a][b].rank());
            }
        }
    }
    assert forall|q: int| #[trigger] m.dom().contains(q) implies holds_rank(new, q) by {
        if q == r {
            assert(valid(new, i, idx));
        } else {
            let at = lemma_content_holds(ls, q);
            assert(valid(new, at.0, at.1));
        }
    }
    lemma_content_is(new, m);
    lemma_total_update(ls, i, s.update(idx, v));
}

/// An element taken out of its leaf leaves the others ordered and leaves
/// their content.
pub proof fn lemma_leaf_remove<T: Ranked>(ls: Seq<Seq<T>>, i: int, idx: int)
    requires
        ordered(ls),
        valid(ls, i, idx),
    ensures
        ordered(ls.update(i, ls[i].remove(idx))),
        content(ls).dom().contains(ls[i][idx].rank()),
        content(ls)[ls[i][idx].rank()] == ls[i][idx],
        content(ls.update(i, ls[i].remove(idx))) == content(ls).remove(ls[i][idx].rank()),
        total(ls.update(i, ls[i].remove(idx))) == total(ls) - 1,
{
    let s = ls[i];
    let r = ls[i][idx].rank();
    let new = ls.update(i, s.remove(idx));
    assert forall|a: int, b: int, k: int, l: int|
        #[trigger] valid(new, a, b) && #[trigger] valid(new, k, l) && (a < k || (a == k && b
            < l)) implies new[a][b].rank() < new[k][l].rank() by {
        let b0 = if a == i && b >= idx { b + 1 } else { b };
        let l0 = if k == i && l >= idx { l + 1 } else { l };
        assert(valid(ls, a, b0));
        assert(valid(ls, k, l0));
    }
    lemma_content_at(ls, i, idx);
    let m = content(ls).remove(r);
    assert forall|a: int, b: int| #[trigger] valid(new, a, b) implies m.dom().contains(
        new[a][b].rank(),
    ) && m[new[a][b].rank()] == new[a][b] by {
        let b0 = if a == i && b >= idx { b + 1 } else { b };
        assert(valid(ls, a, b0));
        lemma_content_at(ls, a, b0);
        if a < i || (a == i && b0 < idx) {
            assert(ls[a][b0].rank() < ls[i][idx].rank());
        } else {
            assert(ls[i][idx].rank() < ls[a][b0].rank());
        }
    }
    assert forall|q: int| #[trigger] m.dom().contains(q) implies holds_rank(new, q) by {
        let at = lemma_content_holds(ls, q);
        let b1 = if at.0 == i && at.1 > idx { at.1 - 1 } else { at.1 };
        assert(valid(new, at.0, b1));
    }
    lemma_content_is(new, m);
    lemma_total_update(ls, i, s.remove(idx));
}

/// A leaf parted in two keeps the leaves ordered and their content as it
/// was.
pub proof fn lemma_leaf_split<T: Ranked>(ls: Seq<Seq<T>>, i: int, mid: int)
    requires
        ordered(ls),
        0 <= i < ls.len(),
        0 <= mid <= ls[i].len(),
    ensures
        ordered(ls.update(i, ls[i].subrange(0, mid)).insert(i + 1, ls[i].subrange(mid, ls[i].len() as int))),
        content(ls.update(i, ls[i].subrange(0, mid)).insert(i + 1, ls[i].subrange(mid, ls[i].len() as int)))
            == content(ls),
        total(ls.update(i, ls[i].subrange(0, mid)).insert(i + 1, ls[i].subrange(mid, ls[i].len() as int)))
            == total(ls),
{
    let s = ls[i];
    let lower = s.subrange(0, mid);
    let upper = s.subrange(mid, s.len() as int);
    let new = ls.update(i, lower).insert(i + 1, upper);
    assert forall|a: int, b: int, k: int, l: int|
        #[trigger] valid(new, a, b) && #[trigger] valid(new, k, l) && (a < k || (a == k && b
            < l)) implies new[a][b].rank() < new[k][l].rank() by {
        let a0 = if a > i { a - 1 } else { a };
        let b0 = if a == i + 1 { b + mid } else { b };
        let k0 = if k > i { k - 1 } else { k };
        let l0 = if k == i + 1 { l + mid } else { l };
        assert(valid(ls, a0, b0));
        assert(valid(ls, k0, l0));
    }
    let m = content(ls);
    assert forall|a: int, b: int| #[trigger] valid(new, a, b) implies m.dom().contains(
        new[a][b].rank(),
    ) && m[new[a][b].rank()] == new[a][b] by {
        let a0 = if a > i { a - 1 } else { a };
        let b0 = if a == i + 1 { b + mid } else { b };
        assert(valid(ls, a0, b0));
        lemma_content_at(ls, a0, b0);
    }
    assert forall|q: int| #[trigger] m.dom().contains(q) implies holds_rank(new, q) by {
        let at = lemma_content_holds(ls, q);
        let a1 = if at.0 > i || (at.0 == i && at.1 >= mid) { at.0 + 1 } else { at.0 };
        let b1 = if at.0 == i && at.1 >= mid { at.1 - mid } else { at.1 };
        assert(valid(new, a1, b1));
    }
    lemma_content_is(new, m);
    lemma_total_update(ls, i, lower);
    lemma_total_insert(ls.update(i, lower), i + 1, upper);
}

/// An empty leaf that goes leaves the others ordered and their content as it
/// was.
pub proof fn lemma_leaf_drop<T: Ranked>(ls: Seq<Seq<T>>, i: int)
    requires
        ordered(ls),
        0 <= i < ls.len(),
        ls[i].len() == 0,
    ensures
        ordered(ls.remove(i)),
        content(ls.remove(i)) == content(ls),
        total(ls.remove(i)) == total(ls),
{
    let new = ls.remove(i);
    assert forall|a: int, b: int, k: int, l: int|
        #[trigger] valid(new, a, b) && #[trigger] valid(new, k, l) && (a < k || (a == k && b
            < l)) implies new[a][b].rank() < new[k][l].rank() by {
        let a0 = if a >= i { a + 1 } else { a };
        let k0 = if k >= i { k + 1 } else { k };
        assert(valid(ls, a0, b));
        assert(valid(ls, k0, l));
    }
    let m = content(ls);
    assert forall|a: int, b: int| #[trigger] valid(new, a, b) implies m.dom().contains(
        new[a][b].rank(),
    ) && m[new[a][b].rank()] == new[a][b] by {
        let a0 = if a >= i { a + 1 } else { a };
        assert(valid(ls, a0, b));
        lemma_content_at(ls, a0, b);
    }
    assert forall|q: int| #[trigger] m.dom().contains(q) implies holds_rank(new, q) by {
        let at = lemma_content_holds(ls, q);
        let a1 = if at.0 > i { at.0 - 1 } else { at.0 };
        assert(valid(new, a1, at.1));
    }
    lemma_content_is(new, m);
    lemma_total_remove(ls, i);
}

/// A leaf that is filed anew, with new elements, is found under its new rank
/// and no longer under the old one.
pub proof fn lemma_shape_update<T>(keys: Seq<int>, ls: Seq<Seq<T>>, i: int, k: int, s: Seq<T>)
    requires
        keys.len() == ls.len(),
        0 <= i < keys.len(),
        rising(keys),
        rising(keys.update(i, k)),
    ensures
        shape_of(keys.update(i, k), ls.update(i, s)) == shape_of(keys, ls).remove(keys[i]).insert(
            k,
            s,
        ),
{
    let keys2 = keys.update(i, k);
    let m = shape_of(keys, ls).remove(keys[i]).insert(k, s);
    assert forall|a: int| 0 <= a < keys2.len() implies m.dom().contains(#[trigger] keys2[a])
        && m[keys2[a]] == ls.update(i, s)[a] by {
        if a != i {
            lemma_shape_at(keys, ls, a);
            if a < i {
                assert(keys[a] < keys[i]);
                assert(keys2[a] < keys2[i]);
            } else {
                assert(keys[i] < keys[a]);
                assert(keys2[i] < keys2[a]);
            }
        }
    }
    assert forall|r: int| #[trigger] m.dom().contains(r) implies files_rank(keys2, r) by {
        if r == k {
            assert(keys2[i] == r);
        } else {
            let a = choose|a: int| 0 <= a < keys.len() && #[trigger] keys[a] == r;
            assert(keys2[a] == r);
        }
    }
    lemma_shape_is(keys2, ls.update(i, s), m);
}

/// A new leaf is found under the rank it is filed under.
pub proof fn lemma_shape_insert<T>(keys: Seq<int>, ls: Seq<Seq<T>>, i: int, k: int, s: Seq<T>)
    requires
        keys.len() == ls.len(),
        0 <= i <= keys.len(),
        rising(keys),
        rising(keys.insert(i, k)),
    ensures
        shape_of(keys.insert(i, k), ls.insert(i, s)) == shape_of(keys, ls).insert(k, s),
{
    let keys2 = keys.insert(i, k);
    let m = shape_of(keys, ls).insert(k, s);
    assert forall|a: int| 0 <= a < keys2.len() implies m.dom().contains(#[trigger] keys2[a])
        && m[keys2[a]] == ls.insert(i, s)[a] by {
        if a != i {
            let a0 = if a > i { a - 1 } else { a };
            lemma_shape_at(keys, ls, a0);
            if a < i {
                assert(keys2[a] < keys2[i]);
            } else {
                assert(keys2[i] < keys2[a]);
            }
        }
    }
    assert forall|r: int| #[trigger] m.dom().contains(r) implies files_rank(keys2, r) by {
        if r == k {
            assert(keys2[i] == r);
        } else {
            let a = choose|a: int| 0 <= a < keys.len() && #[trigger] keys[a] == r;
            let a1 = if a >= i { a + 1 } else { a };
            assert(keys2[a1] == r);
        }
    }
    lemma_shape_is(keys2, ls.insert(i, s), m);
}

/// A leaf that goes is no longer found under its rank.
pub proof fn lemma_shape_remove<T>(keys: Seq<int>, ls: Seq<Seq<T>>, i: int)
    requires
        keys.len() == ls.len(),
        0 <= i < keys.len(),
        rising(keys),
    ensures
        rising(keys.remove(i)),
        shape_of(keys.remove(i), ls.remove(i)) == shape_of(keys, ls).remove(keys[i]),
{
    let keys2 = keys.remove(i);
    assert forall|a: int, b: int| 0 <= a < b < keys2.len() implies #[trigger] keys2[a]
        < #[trigger] keys2[b] by {
        let a0 = if a >= i { a + 1 } else { a };
        let b0 = if b >= i { b + 1 } else { b };
        assert(keys[a0] < keys[b0]);
    }
    let m = shape_of(keys, ls).remove(keys[i]);
    assert forall|a: int| 0 <= a < keys2.len() implies m.dom().contains(#[trigger] keys2[a])
        && m[keys2[a]] == ls.remove(i)[a] by {
        let a0 = if a >= i { a + 1 } else { a };
        lemma_shape_at(keys, ls, a0);
        if a0 < i {
            assert(keys[a0] < keys[i]);
        } else {
            assert(keys[i] < keys[a0]);
        }
    }
    assert forall|r: int| #[trigger] m.dom().contains(r) implies files_rank(keys2, r) by {
        let a = choose|a: int| 0 <= a < keys.len() && #[trigger] keys[a] == r;
        let a1 = if a > i { a - 1 } else { a };
        assert(keys2[a1] == r);
    }
    lemma_shape_is(keys2, ls.remove(i), m);
}

/// An element put into the leaf where it belongs, in the place of one of its
/// rank or at its sorted position, keeps the leaves ordered and joins their
/// content.
pub proof fn lemma_leaf_put<T: Ranked>(ls: Seq<Seq<T>>, i: int, idx: int, v: T)
    requires
        ordered(ls),
        belongs(ls, i, v.rank()),
        is_cut(ls[i], v.rank(), idx),
    ensures
        ordered(ls.update(i, put_at(ls[i], idx, v))),
        content(ls.update(i, put_at(ls[i], idx, v))) == content(ls).insert(v.rank(), v),
        content(ls).dom().contains(v.rank()) <==> idx < ls[i].len() && ls[i][idx].rank()
            == v.rank(),
        content(ls).dom().contains(v.rank()) ==> content(ls)[v.rank()] == ls[i][idx],
        total(ls.update(i, put_at(ls[i], idx, v))) == total(ls) + (if content(
            ls,
        ).dom().contains(v.rank()) {
            0int
        } else {
            1int
        }),
{
    if idx < ls[i].len() && ls[i][idx].rank() == v.rank() {
        assert(valid(ls, i, idx));
        lemma_leaf_replace(ls, i, idx, v);
    } else {
        lemma_leaf_insert(ls, i, idx, v);
    }
}

/// A leaf parted at its midpoint keeps the leaves ordered and their content;
/// an element that belonged in the leaf belongs in the lower half where its
/// rank is at most that of the half's last element, else in the upper half.
pub proof fn lemma_halved<T: Ranked>(keys: Seq<int>, ls: Seq<Seq<T>>, slot: int, r: int)
    requires
        ordered(ls),
        fresh(keys, ls),
        targets(keys, slot, r),
        ls[slot].len() >= 2,
    ensures
        ordered(halved(ls, slot)),
        content(halved(ls, slot)) == content(ls),
        total(halved(ls, slot)) == total(ls),
        halved(ls, slot)[slot].len() > 0,
        halved(ls, slot)[slot + 1].len() > 0,
        r <= halved(ls, slot)[slot].last().rank() ==> belongs(halved(ls, slot), slot, r),
        r > halved(ls, slot)[slot].last().rank() ==> belongs(halved(ls, slot), slot + 1, r),
{
    let mid = (ls[slot].len() / 2) as int;
    let new = halved(ls, slot);
    lemma_leaf_split(ls, slot, mid);
    lemma_elsewhere(keys, ls, slot, r);
    let lm = new[slot].last().rank();
    assert(valid(new, slot, new[slot].len() - 1));
    if r <= lm {
        assert forall|a: int, b: int| #[trigger] valid(new, a, b) && a < slot implies new[a][b].rank()
            < r by {
            assert(valid(ls, a, b));
        }
        assert forall|a: int, b: int| #[trigger] valid(new, a, b) && a > slot implies new[a][b].rank()
            > r by {}
    } else {
        assert forall|a: int, b: int| #[trigger] valid(new, a, b) && a < slot + 1 implies new[a][b].rank()
            < r by {
            if a < slot {
                assert(valid(ls, a, b));
            }
        }
        assert forall|a: int, b: int| #[trigger] valid(new, a, b) && a > slot + 1 implies new[a][b].rank()
            > r by {
            assert(valid(ls, a - 1, b));
        }
    }
}

/// Two leaves in the place of one, each filed under its last element, leave
/// every leaf filed under its last element and within the capacity.
pub proof fn lemma_halves_fresh<T: Ranked>(
    keys: Seq<int>,
    ls: Seq<Seq<T>>,
    slot: int,
    lower: Seq<T>,
    upper: Seq<T>,
    cap: nat,
)
    requires
        fresh(keys, ls),
        0 <= slot < ls.len(),
        0 < lower.len() <= cap,
        0 < upper.len() <= cap,
        forall|i: int| 0 <= i < ls.len() ==> (#[trigger] ls[i]).len() <= cap,
    ensures
        fresh(
            keys.update(slot, lower.last().rank()).insert(slot + 1, upper.last().rank()),
            ls.update(slot, lower).insert(slot + 1, upper),
        ),
        forall|i: int|
            0 <= i < ls.len() + 1 ==> (#[trigger] ls.update(slot, lower).insert(
                slot + 1,
                upper,
            )[i]).len() <= cap,
{
    let keys2 = keys.update(slot, lower.last().rank()).insert(slot + 1, upper.last().rank());
    let ls2 = ls.update(slot, lower).insert(slot + 1, upper);
    assert forall|i: int| 0 <= i < ls2.len() implies (#[trigger] ls2[i]).len() > 0 && keys2[i]
        == ls2[i].last().rank() && ls2[i].len() <= cap by {
        if i < slot {
            assert(ls2[i] == ls[i]);
        } else if i > slot + 1 {
            assert(ls2[i] == ls[i - 1]);
        }
    }
}

/// Two leaves in the place of one are found under their two ranks, and
/// nothing is found any longer under the rank of the one.
pub proof fn lemma_shape_halves<T>(
    keys: Seq<int>,
    ls: Seq<Seq<T>>,
    slot: int,
    lk: int,
    uk: int,
    lower: Seq<T>,
    upper: Seq<T>,
)
    requires
        keys.len() == ls.len(),
        0 <= slot < keys.len(),
        rising(keys),
        rising(keys.update(slot, lk).insert(slot + 1, uk)),
    ensures
        shape_of(
            keys.update(slot, lk).insert(slot + 1, uk),
            ls.update(slot, lower).insert(slot + 1, upper),
        ) == shape_of(keys, ls).remove(keys[slot]).insert(lk, lower).insert(uk, upper),
{
    let keys1 = keys.update(slot, lk);
    let keys2 = keys1.insert(slot + 1, uk);
    let ls1 = ls.update(slot, lower);
    let ls2 = ls1.insert(slot + 1, upper);
    lemma_shape_remove(keys2, ls2, slot + 1);
    assert(keys2.remove(slot + 1) =~= keys1);
    lemma_shape_update(keys, ls, slot, lk, lower);
    lemma_shape_insert(keys1, ls1, slot + 1, uk, upper);
}

/// Each leaf of ordered leaves ascends.
pub proof fn lemma_ordered_ascending<T: Ranked>(ls: Seq<Seq<T>>, i: int)
    requires
        ordered(ls),
        0 <= i < ls.len(),
    ensures
        ascending(ls[i]),
{
    assert forall|a: int, b: int| 0 <= a < b < ls[i].len() implies (#[trigger] ls[i][a]).rank() < (
    #[trigger] ls[i][b]).rank() by {
        assert(valid(ls, i, a) && valid(ls, i, b));
    }
}

/// One leaf of one element is ordered, and holds that element only.
pub proof fn lemma_first_leaf<T: Ranked>(v: T)
    ensures
        ordered(seq![seq![v]]),
        content(seq![seq![v]]) == Map::<int, T>::empty().insert(v.rank(), v),
        total(seq![seq![v]]) == 1,
        shape_of(seq![v.rank()], seq![seq![v]]) == Map::<int, Seq<T>>::empty().insert(
            v.rank(),
            seq![v],
        ),
{
    let ls = seq![seq![v]];
    let none = Seq::<Seq<T>>::empty();
    let m = Map::<int, T>::empty().insert(v.rank(), v);
    assert forall|q: int| #[trigger] m.dom().contains(q) implies holds_rank(ls, q) by {
        assert(valid(ls, 0, 0));
    }
    lemma_content_is(ls, m);
    lemma_total_insert(none, 0, seq![v]);
    assert(none.insert(0, seq![v]) =~= ls);
    let keys = seq![v.rank()];
    let sm = Map::<int, Seq<T>>::empty().insert(v.rank(), seq![v]);
    assert forall|q: int| #[trigger] sm.dom().contains(q) implies files_rank(keys, q) by {
        assert(keys[0] == q);
    }
    lemma_shape_is(keys, ls, sm);
}

/// A leaf that changes where it stands, filed as before, is found with its
/// new elements under the rank it was filed under.
pub proof fn lemma_shape_leaf<T>(keys: Seq<int>, ls: Seq<Seq<T>>, i: int, s: Seq<T>)
    requires
        keys.len() == ls.len(),
        0 <= i < keys.len(),
        rising(keys),
    ensures
        shape_of(keys, ls).dom().contains(keys[i]),
        shape_of(keys, ls)[keys[i]] == ls[i],
        shape_of(keys, ls.update(i, s)) == shape_of(keys, ls).insert(keys[i], s),
{
    lemma_shape_at(keys, ls, i);
    assert(keys.update(i, keys[i]) =~= keys);
    lemma_shape_update(keys, ls, i, keys[i], s);
    assert(shape_of(keys, ls).remove(keys[i]).insert(keys[i], s) =~= shape_of(keys, ls).insert(
        keys[i],
        s,
    ));
}

/// The stretch of `s` from `a` to before `b` holds an element of rank `r`.
pub open spec fn chunk_has<T: Ranked>(s: Seq<T>, a: int, b: int, r: int) -> bool {
    exists|j: int| a <= j < b && 0 <= j < s.len() && (#[trigger] s[j]).rank() == r
}

/// `s` without the stretch from `a` to before `b`.
pub open spec fn cut_out<T>(s: Seq<T>, a: int, b: int) -> Seq<T> {
    s.subrange(0, a) + s.subrange(b, s.len() as int)
}

/// A stretch taken out of a leaf leaves the leaves ordered and leaves their
/// content.
pub proof fn lemma_leaf_cut<T: Ranked>(ls: Seq<Seq<T>>, i: int, a: int, b: int)
    requires
        ordered(ls),
        0 <= i < ls.len(),
        0 <= a <= b <= ls[i].len(),
    ensures
        ordered(ls.update(i, cut_out(ls[i], a, b))),
        content(ls.update(i, cut_out(ls[i], a, b))) == content(ls).remove_keys(
            Set::new(|r: int| chunk_has(ls[i], a, b, r)),
        ),
{
    let s = ls[i];
    let new = ls.update(i, cut_out(s, a, b));
    let m = content(ls).remove_keys(Set::new(|r: int| chunk_has(s, a, b, r)));
    assert forall|x: int, y: int, k: int, l: int|
        #[trigger] valid(new, x, y) && #[trigger] valid(new, k, l) && (x < k || (x == k && y
            < l)) implies new[x][y].rank() < new[k][l].rank() by {
        let y0 = if x == i && y >= a { y + (b - a) } else { y };
        let l0 = if k == i && l >= a { l + (b - a) } else { l };
        assert(valid(ls, x, y0));
        assert(valid(ls, k, l0));
    }
    assert forall|x: int, y: int| #[trigger] valid(new, x, y) implies m.dom().contains(
        new[x][y].rank(),
    ) && m[new[x][y].rank()] == new[x][y] by {
        let y0 = if x == i && y >= a { y + (b - a) } else { y };
        assert(valid(ls, x, y0));
        lemma_content_at(ls, x, y0);
        if chunk_has(s, a, b, ls[x][y0].rank()) {
            let j = choose|j: int|
                a <= j < b && 0 <= j < s.len() && (#[trigger] s[j]).rank() == ls[x][y0].rank();
            assert(valid(ls, i, j));
            if x < i || (x == i && y0 < j) {
                assert(ls[x][y0].rank() < ls[i][j].rank());
            } else {
                assert(ls[i][j].rank() < ls[x][y0].rank());
            }
        }
    }
    assert forall|q: int| #[trigger] m.dom().contains(q) implies holds_rank(new, q) by {
        let at = lemma_content_holds(ls, q);
        if at.0 == i {
            assert(!chunk_has(s, a, b, q));
            assert(!(a <= at.1 < b));
            let y1 = if at.1 >= b { at.1 - (b - a) } else { at.1 };
            assert(valid(new, i, y1));
        } else {
            assert(valid(new, at.0, at.1));
        }
    }
    lemma_content_is(new, m);
}

/// Ordered leaves hold as many ranks as they hold elements.
pub proof fn lemma_content_count<T: Ranked>(ls: Seq<Seq<T>>)
    requires
        ordered(ls),
    ensures
        content(ls).dom().finite(),
        content(ls).dom().len() == total(ls),
    decreases ls.len(), (if ls.len() > 0 { ls.last().len() } else { 0 }),
{
    if ls.len() == 0 {
        assert(content(ls).dom() =~= Set::<int>::empty());
    } else {
        let i = ls.len() - 1;
        if ls[i].len() == 0 {
            lemma_leaf_drop(ls, i);
            lemma_content_count(ls.remove(i));
        } else {
            let j = ls[i].len() - 1;
            lemma_leaf_remove(ls, i, j);
            let rest = ls.update(i, ls[i].remove(j));
            lemma_content_count(rest);
            assert(content(ls).dom() =~= content(rest).dom().insert(ls[i][j].rank()));
        }
    }
}

/// The rank of the last element of each leaf.
pub open spec fn last_ranks<T: Ranked>(ls: Seq<Seq<T>>) -> Seq<int> {
    Seq::new(ls.len(), |i: int| ls[i].last().rank())
}

/// The leaf where an element of rank `r` belongs, among leaves filed under
/// `keys`.
pub open spec fn target_of(keys: Seq<int>, r: int) -> int {
    choose|slot: int| targets(keys, slot, r)
}

/// Among leaves filed under rising ranks, an element belongs in one leaf
/// only.
pub proof fn lemma_target_unique(keys: Seq<int>, slot: int, r: int)
    requires
        rising(keys),
        targets(keys, slot, r),
    ensures
        target_of(keys, r) == slot,
{
    let c = target_of(keys, r);
    if c < slot {
        assert(keys[c] < r);
    } else if slot < c {
        assert(keys[slot] < r);
    }
}

} // verus!
