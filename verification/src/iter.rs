//! Traversal of a set from both ends, in whole or over a range of ranks.

use vstd::prelude::*;
use crate::element::{above_start, below_end, within, Bound, Ranked};
use crate::layout::{content, fresh, lemma_elsewhere, ordered, valid};
use crate::set::BTreeSet;
use crate::span::{
    at_or_after, before, cut_from, gone, lemma_cut_step, lemma_range_first, lemma_range_last,
    lemma_range_step, lemma_range_void, lemma_span_all, lemma_span_empty, lemma_span_pop_back,
    lemma_span_pop_front, lemma_span_within, marks, settled, span,
};

verus! {

/// A step from the front: it hands out the element of least rank and leaves
/// the rest, or finds nothing and leaves nothing.
pub open spec fn yields_least<T: Ranked>(
    remaining: Map<int, T>,
    out: Option<T>,
    rest: Map<int, T>,
) -> bool {
    match out {
        Some(x) => {
            &&& remaining.dom().contains(x.rank())
            &&& remaining[x.rank()] == x
            &&& forall|r: int| #[trigger] remaining.dom().contains(r) ==> x.rank() <= r
            &&& rest == remaining.remove(x.rank())
        },
        None => remaining == Map::<int, T>::empty() && rest == remaining,
    }
}

/// A step from the back: it hands out the element of greatest rank and
/// leaves the rest, or finds nothing and leaves nothing.
pub open spec fn yields_greatest<T: Ranked>(
    remaining: Map<int, T>,
    out: Option<T>,
    rest: Map<int, T>,
) -> bool {
    match out {
        Some(x) => {
            &&& remaining.dom().contains(x.rank())
            &&& remaining[x.rank()] == x
            &&& forall|r: int| #[trigger] remaining.dom().contains(r) ==> r <= x.rank()
            &&& rest == remaining.remove(x.rank())
        },
        None => remaining == Map::<int, T>::empty() && rest == remaining,
    }
}

/// What a reference handed out by a traversal refers to.
pub open spec fn handed<T>(out: Option<&T>) -> Option<T> {
    match out {
        Some(x) => Some(*x),
        None => None,
    }
}

/// Whether a rank lies at or past one end of a range: inside the range as
/// far as its start decides, or outside it as far as its end decides.
pub open spec fn reached<Q: Ranked>(bound: Bound<&Q>, is_start: bool, r: int) -> bool {
    if is_start {
        above_start(bound, r)
    } else {
        !below_end(bound, r)
    }
}

/// The first position of `set` that a range bound reaches.
fn seek<T: Ranked, Q: Ranked>(set: &BTreeSet<T>, bound: &Bound<&Q>, is_start: bool) -> (at: (
    usize,
    usize,
))
    requires
        set.wf(),
    ensures
        settled(set.leaves(), at.0 as int, at.1 as int),
        forall|i: int, j: int| #[trigger]
            valid(set.leaves(), i, j) ==> (at_or_after(at.0 as int, at.1 as int, i, j)
                <==> reached(*bound, is_start, set.leaves()[i][j].rank())),
{
    let n = set.node_count();
    proof {
        set.lemma_wf();
    }
    let t = match bound {
        Bound::Included(q) => q.rank_of(),
        Bound::Excluded(q) => q.rank_of(),
        Bound::Unbounded => {
            return if is_start {
                (0, 0)
            } else {
                (n, 0)
            };
        },
    };
    let slot = set.lower_bound(t);
    if slot >= n {
        proof {
            assert forall|i: int, j: int| #[trigger] valid(set.leaves(), i, j) implies !reached(
                *bound,
                is_start,
                set.leaves()[i][j].rank(),
            ) by {
                assert(valid(set.leaves(), i, set.leaves()[i].len() - 1));
                assert(set.keys()[i] < t);
            }
        }
        return (n, 0);
    }
    proof {
        lemma_elsewhere(set.keys(), set.leaves(), slot as int, t as int);
    }
    let node = set.node(slot);
    let pos = node.rank(bound, is_start);
    if pos < node.len() {
        (slot, pos)
    } else {
        (slot + 1, 0)
    }
}

/// A traversal of a set from both ends.
pub struct Iter<'a, T: Ranked> {
    set: &'a BTreeSet<T>,
    front_leaf: usize,
    front_pos: usize,
    back_leaf: usize,
    back_pos: usize,
}

impl<'a, T: Ranked> View for Iter<'a, T> {
    type V = Map<int, T>;

    /// The elements still to come, each under its rank.
    closed spec fn view(&self) -> Map<int, T> {
        span(
            self.set.leaves(),
            self.front_leaf as int,
            self.front_pos as int,
            self.back_leaf as int,
            self.back_pos as int,
        )
    }
}

impl<'a, T: Ranked> Iter<'a, T> {
    /// The set that is traversed.
    pub closed spec fn source(&self) -> BTreeSet<T> {
        *self.set
    }

    /// Both cursors are at rest in a well-formed set.
    pub closed spec fn wf(&self) -> bool {
        &&& self.set.wf()
        &&& settled(self.set.leaves(), self.front_leaf as int, self.front_pos as int)
        &&& settled(self.set.leaves(), self.back_leaf as int, self.back_pos as int)
    }

    /// A traversal of all of `set`.
    pub fn new(set: &'a BTreeSet<T>) -> (iter: Self)
        requires
            set.wf(),
        ensures
            iter.wf(),
            iter.source() == *set,
            iter@ == set@,
    {
        let n = set.node_count();
        proof {
            set.lemma_wf();
            lemma_span_all(set.leaves());
        }
        Iter { set, front_leaf: 0, front_pos: 0, back_leaf: n, back_pos: 0 }
    }

    /// A traversal of the elements of `set` whose ranks lie from `start` to
    /// `end`.
    pub fn over<Q: Ranked>(set: &'a BTreeSet<T>, start: Bound<&Q>, end: Bound<&Q>) -> (iter: Self)
        requires
            set.wf(),
        ensures
            iter.wf(),
            iter.source() == *set,
            iter@ == set@.restrict(Set::new(|r: int| within(start, end, r))),
    {
        let front = seek(set, &start, true);
        let back = seek(set, &end, false);
        proof {
            set.lemma_wf();
            lemma_span_within(
                set.leaves(),
                front.0 as int,
                front.1 as int,
                back.0 as int,
                back.1 as int,
                start,
                end,
            );
        }
        Iter { set, front_leaf: front.0, front_pos: front.1, back_leaf: back.0, back_pos: back.1 }
    }

    /// Whether the front cursor has not yet met the back cursor.
    fn has_more(&self) -> (more: bool)
        ensures
            more == before(
                self.front_leaf as int,
                self.front_pos as int,
                self.back_leaf as int,
                self.back_pos as int,
            ),
    {
        self.front_leaf < self.back_leaf || (self.front_leaf == self.back_leaf && self.front_pos
            < self.back_pos)
    }

    /// Hands out the element of least rank among those still to come.
    pub fn next(&mut self) -> (out: Option<&'a T>)
        requires
            old(self).wf(),
        ensures
            final(self).wf(),
            final(self).source() == old(self).source(),
            yields_least(old(self)@, handed(out), final(self)@),
    {
        let set: &'a BTreeSet<T> = self.set;
        proof {
            set.lemma_wf();
        }
        if !self.has_more() {
            proof {
                lemma_span_empty(
                    set.leaves(),
                    self.front_leaf as int,
                    self.front_pos as int,
                    self.back_leaf as int,
                    self.back_pos as int,
                );
            }
            return None;
        }
        let leaf = self.front_leaf;
        let pos = self.front_pos;
        assert(valid(set.leaves(), leaf as int, pos as int));
        let node = set.node(leaf);
        let item = &node.items[pos];
        let held = node.len();
        if pos + 1 < held {
            self.front_pos = pos + 1;
        } else {
            self.front_leaf = leaf + 1;
            self.front_pos = 0;
        }
        proof {
            lemma_span_pop_front(
                set.leaves(),
                leaf as int,
                pos as int,
                self.back_leaf as int,
                self.back_pos as int,
                self.front_leaf as int,
                self.front_pos as int,
            );
        }
        Some(item)
    }

    /// Hands out the element of greatest rank among those still to come.
    pub fn next_back(&mut self) -> (out: Option<&'a T>)
        requires
            old(self).wf(),
        ensures
            final(self).wf(),
            final(self).source() == old(self).source(),
            yields_greatest(old(self)@, handed(out), final(self)@),
    {
        let set: &'a BTreeSet<T> = self.set;
        proof {
            set.lemma_wf();
        }
        if !self.has_more() {
            proof {
                lemma_span_empty(
                    set.leaves(),
                    self.front_leaf as int,
                    self.front_pos as int,
                    self.back_leaf as int,
                    self.back_pos as int,
                );
            }
            return None;
        }
        let ghost end_leaf = self.back_leaf as int;
        let ghost end_pos = self.back_pos as int;
        if self.back_pos > 0 {
            self.back_pos = self.back_pos - 1;
        } else {
            self.back_leaf = self.back_leaf - 1;
            self.back_pos = set.node(self.back_leaf).len() - 1;
        }
        let item = &set.node(self.back_leaf).items[self.back_pos];
        proof {
            lemma_span_pop_back(
                set.leaves(),
                self.front_leaf as int,
                self.front_pos as int,
                end_leaf,
                end_pos,
                self.back_leaf as int,
                self.back_pos as int,
            );
        }
        Some(item)
    }
}

/// A traversal of a range of a set from both ends.
pub struct Range<'a, T: Ranked> {
    iter: Iter<'a, T>,
}

impl<'a, T: Ranked> View for Range<'a, T> {
    type V = Map<int, T>;

    /// The elements still to come, each under its rank.
    closed spec fn view(&self) -> Map<int, T> {
        self.iter@
    }
}

impl<'a, T: Ranked> Range<'a, T> {
    /// The set that is traversed.
    pub closed spec fn source(&self) -> BTreeSet<T> {
        self.iter.source()
    }

    /// Both cursors are at rest in a well-formed set.
    pub closed spec fn wf(&self) -> bool {
        self.iter.wf()
    }

    /// A traversal of the elements of `set` whose ranks lie from `start` to
    /// `end`.
    pub fn new<Q: Ranked>(set: &'a BTreeSet<T>, start: Bound<&Q>, end: Bound<&Q>) -> (range: Self)
        requires
            set.wf(),
        ensures
            range.wf(),
            range.source() == *set,
            range@ == set@.restrict(Set::new(|r: int| within(start, end, r))),
    {
        Range { iter: Iter::over(set, start, end) }
    }

    /// Hands out the element of least rank among those still to come.
    pub fn next(&mut self) -> (out: Option<&'a T>)
        requires
            old(self).wf(),
        ensures
            final(self).wf(),
            final(self).source() == old(self).source(),
            yields_least(old(self)@, handed(out), final(self)@),
    {
        self.iter.next()
    }

    /// Hands out the element of greatest rank among those still to come.
    pub fn next_back(&mut self) -> (out: Option<&'a T>)
        requires
            old(self).wf(),
        ensures
            final(self).wf(),
            final(self).source() == old(self).source(),
            yields_greatest(old(self)@, handed(out), final(self)@),
    {
        self.iter.next_back()
    }
}

impl<T: Ranked> BTreeSet<T> {
    /// A traversal of the set in ascending order of rank, open at both ends.
    pub fn iter<'a>(&'a self) -> (iter: Iter<'a, T>)
        requires
            self.wf(),
        ensures
            iter.wf(),
            iter.source() == *self,
            iter@ == self@,
    {
        Iter::new(self)
    }

    /// A traversal of the elements whose ranks lie from `start` to `end`, in
    /// ascending order of rank, open at both ends.
    pub fn range<'a, Q: Ranked>(&'a self, start: Bound<&Q>, end: Bound<&Q>) -> (range: Range<
        'a,
        T,
    >)
        requires
            self.wf(),
        ensures
            range.wf(),
            range.source() == *self,
            range@ == self@.restrict(Set::new(|r: int| within(start, end, r))),
    {
        Range::new(self, start, end)
    }

    /// Takes every element whose rank lies from `start` to `end` out of the
    /// set: the leaf where the range begins is trimmed from there on, the
    /// leaves in between leave the index, and the leaf where the range ends is
    /// trimmed up to there.
    pub fn remove_range<Q: Ranked>(&mut self, start: Bound<&Q>, end: Bound<&Q>)
        requires
            old(self).wf(),
        ensures
            final(self).wf(),
            final(self).capacity() == old(self).capacity(),
            final(self)@ == old(self)@.remove_keys(Set::new(|r: int| within(start, end, r))),
            exists|fl: int, fp: int, bl: int, bp: int|
                {
                    &&& #[trigger] marks(old(self).leaves(), fl, fp, bl, bp, start, end)
                    &&& settled(old(self).leaves(), fl, fp)
                    &&& settled(old(self).leaves(), bl, bp)
                    &&& final(self).leaves() == if before(fl, fp, bl, bp) {
                        cut_from(old(self).leaves(), fl, fl, fp, bl, bp)
                    } else {
                        old(self).leaves()
                    }
                },
    {
        let front = seek(self, &start, true);
        let back = seek(self, &end, false);
        let n = self.node_count();
        let ghost keys0 = self.keys();
        let ghost ls0 = self.leaves();
        proof {
            self.lemma_wf();
            assert(marks(
                ls0,
                front.0 as int,
                front.1 as int,
                back.0 as int,
                back.1 as int,
                start,
                end,
            ));
        }
        if !(front.0 < back.0 || (front.0 == back.0 && front.1 < back.1)) {
            proof {
                lemma_range_void(
                    ls0,
                    front.0 as int,
                    front.1 as int,
                    back.0 as int,
                    back.1 as int,
                    start,
                    end,
                );
            }
            return;
        }
        let mut k = if back.0 < n {
            back.0 + 1
        } else {
            n
        };
        proof {
            lemma_range_first(
                keys0,
                ls0,
                front.0 as int,
                front.1 as int,
                back.0 as int,
                back.1 as int,
                start,
                end,
                k as int,
            );
            assert(ls0 =~= cut_from(
                ls0,
                k as int,
                front.0 as int,
                front.1 as int,
                back.0 as int,
                back.1 as int,
            ));
        }
        while k > front.0
            invariant
                self.wf(),
                self.capacity() == old(self).capacity(),
                ordered(ls0),
                fresh(keys0, ls0),
                content(ls0) == old(self)@,
                marks(
                    ls0,
                    front.0 as int,
                    front.1 as int,
                    back.0 as int,
                    back.1 as int,
                    start,
                    end,
                ),
                before(front.0 as int, front.1 as int, back.0 as int, back.1 as int),
                settled(ls0, back.0 as int, back.1 as int),
                valid(ls0, front.0 as int, front.1 as int),
                front.0 <= k <= ls0.len(),
                k <= back.0 + 1,
                k <= self.leaves().len(),
                self.leaves().take(k as int) == ls0.take(k as int),
                self.leaves() == cut_from(
                    ls0,
                    k as int,
                    front.0 as int,
                    front.1 as int,
                    back.0 as int,
                    back.1 as int,
                ),
                self@ == content(ls0).remove_keys(
                    Set::new(|r: int| gone(keys0, k as int, start, end, r)),
                ),
            decreases k,
        {
            let i = k - 1;
            assert(self.leaves()[i as int] == self.leaves().take(k as int)[i as int]);
            assert(ls0[i as int] == ls0.take(k as int)[i as int]);
            let a = if i == front.0 {
                front.1
            } else {
                0
            };
            let b = if i == back.0 {
                back.1
            } else {
                self.node(i).len()
            };
            let ghost before_cut = self.leaves();
            proof {
                lemma_range_step(
                    keys0,
                    ls0,
                    front.0 as int,
                    front.1 as int,
                    back.0 as int,
                    back.1 as int,
                    start,
                    end,
                    k as int,
                    a as int,
                    b as int,
                );
            }
            self.cut_leaf(i, a, b);
            proof {
                let fl = front.0 as int;
                let fp = front.1 as int;
                let bl = back.0 as int;
                let bp = back.1 as int;
                lemma_cut_step(ls0, k as int, fl, fp, bl, bp);
                assert(self.leaves().take(i as int) =~= before_cut.take(i as int));
                assert(before_cut.take(i as int) =~= before_cut.take(k as int).take(i as int));
                assert(ls0.take(i as int) =~= ls0.take(k as int).take(i as int));
                assert(self@ =~= content(ls0).remove_keys(
                    Set::new(|r: int| gone(keys0, i as int, start, end, r)),
                ));
            }
            k = i;
        }
        proof {
            lemma_range_last(
                keys0,
                ls0,
                front.0 as int,
                front.1 as int,
                back.0 as int,
                back.1 as int,
                start,
                end,
            );
        }
    }
}

} // verus!
