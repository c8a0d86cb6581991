//! Leaf nodes: bounded sorted runs of elements, searched by rank.

use vstd::prelude::*;
use crate::element::{above_start, below_end, Bound, Ranked};

verus! {

/// The ranks of `s` rise strictly from each element to the next.
pub open spec fn ascending<T: Ranked>(s: Seq<T>) -> bool {
    forall|i: int, j: int|
        0 <= i < j < s.len() ==> (#[trigger] s[i]).rank() < (#[trigger] s[j]).rank()
}

/// `idx` parts `s` into the elements ranked below `t` and those ranked `t` or
/// above.
pub open spec fn is_cut<T: Ranked>(s: Seq<T>, t: int, idx: int) -> bool {
    &&& 0 <= idx <= s.len()
    &&& forall|j: int| 0 <= j < idx ==> (#[trigger] s[j]).rank() < t
    &&& forall|j: int| idx <= j < s.len() ==> (#[trigger] s[j]).rank() >= t
}

/// The position at which `s` is parted by the rank `t`.
pub open spec fn cut_of<T: Ranked>(s: Seq<T>, t: int) -> int {
    choose|idx: int| is_cut(s, t, idx)
}

/// A sequence is parted by a rank at one position only.
pub proof fn lemma_cut_unique<T: Ranked>(s: Seq<T>, t: int, idx: int)
    requires
        is_cut(s, t, idx),
    ensures
        cut_of(s, t) == idx,
{
    let c = cut_of(s, t);
    if c < idx {
        assert(s[c].rank() < t);
    } else if idx < c {
        assert(s[idx].rank() >= t);
    }
}

/// A leaf: the elements it holds, in ascending order of rank.
pub struct Node<T> {
    pub items: Vec<T>,
}

impl<T> View for Node<T> {
    type V = Seq<T>;

    open spec fn view(&self) -> Seq<T> {
        self.items@
    }
}

impl<T: Ranked> Node<T> {
    /// A leaf without elements.
    pub fn new() -> (node: Self)
        ensures
            node@ == Seq::<T>::empty(),
    {
        Node { items: Vec::new() }
    }

    /// The number of elements.
    pub fn len(&self) -> (n: usize)
        ensures
            n == self@.len(),
    {
        self.items.len()
    }

    /// The greatest element, if there is one.
    pub fn last(&self) -> (max: Option<&T>)
        ensures
            self@.len() == 0 ==> max is None,
            self@.len() > 0 ==> max == Some(&self@[self@.len() - 1]),
    {
        let n = self.items.len();
        if n == 0 {
            None
        } else {
            Some(&self.items[n - 1])
        }
    }

    /// The first position whose element has rank `t` or more.
    pub fn search(&self, t: i128) -> (idx: usize)
        requires
            ascending(self@),
        ensures
            is_cut(self@, t as int, idx as int),
    {
        let mut lo: usize = 0;
        let mut hi: usize = self.items.len();
        while lo < hi
            invariant
                0 <= lo <= hi <= self@.len(),
                ascending(self@),
                forall|j: int| 0 <= j < lo ==> (#[trigger] self@[j]).rank() < t,
                forall|j: int| hi <= j < self@.len() ==> (#[trigger] self@[j]).rank() >= t,
            decreases hi - lo,
        {
            let mid = lo + (hi - lo) / 2;
            if self.items[mid].rank_of() < t {
                lo = mid + 1;
            } else {
                hi = mid;
            }
        }
        lo
    }

    /// The first position whose element has a rank above `t`.
    pub fn search_above(&self, t: i128) -> (idx: usize)
        requires
            ascending(self@),
        ensures
            is_cut(self@, t + 1, idx as int),
    {
        let idx = self.search(t);
        if idx < self.items.len() && self.items[idx].rank_of() == t {
            idx + 1
        } else {
            idx
        }
    }

    /// Puts `value` at its sorted position unless the leaf holds an element of
    /// the same rank. Returns whether it was put in, and the position that its
    /// rank has in the leaf.
    pub fn insert(&mut self, value: T) -> (res: (bool, usize))
        requires
            ascending(old(self)@),
        ensures
            is_cut(old(self)@, value.rank(), res.1 as int),
            res.0 <==> !(res.1 < old(self)@.len() && old(self)@[res.1 as int].rank()
                == value.rank()),
            res.0 ==> final(self)@ == old(self)@.insert(res.1 as int, value),
            !res.0 ==> final(self)@ == old(self)@,
            ascending(final(self)@),
    {
        let idx = self.search(value.rank_of());
        if idx < self.items.len() && self.items[idx].rank_of() == value.rank_of() {
            (false, idx)
        } else {
            self.items.insert(idx, value);
            (true, idx)
        }
    }

    /// Puts `value` into the leaf: in the place of the element of its rank,
    /// which is returned, where there is one, else at its sorted position.
    /// Returns also the position that `value` now has.
    pub fn put(&mut self, value: T) -> (res: (Option<T>, usize))
        requires
            ascending(old(self)@),
        ensures
            is_cut(old(self)@, value.rank(), res.1 as int),
            res.1 < old(self)@.len() && old(self)@[res.1 as int].rank() == value.rank() ==> res.0
                == Some(old(self)@[res.1 as int]) && final(self)@ == old(self)@.update(
                res.1 as int,
                value,
            ),
            !(res.1 < old(self)@.len() && old(self)@[res.1 as int].rank() == value.rank())
                ==> res.0 is None && final(self)@ == old(self)@.insert(res.1 as int, value),
    {
        let (inserted, idx) = self.insert(value.replicate());
        if inserted {
            (None, idx)
        } else {
            (self.replace(idx, value), idx)
        }
    }

    /// Puts `value` in the place of the element at `idx` and returns that
    /// element. Does nothing where the leaf has no such position.
    pub fn replace(&mut self, idx: usize, value: T) -> (displaced: Option<T>)
        ensures
            idx < old(self)@.len() ==> displaced == Some(old(self)@[idx as int]) && final(self)@
                == old(self)@.update(idx as int, value),
            idx >= old(self)@.len() ==> displaced is None && final(self)@ == old(self)@,
    {
        if idx < self.items.len() {
            let mut held = value;
            core::mem::swap(&mut self.items[idx], &mut held);
            Some(held)
        } else {
            None
        }
    }

    /// Takes out the element that has the rank of `query`, if the leaf holds
    /// one, and returns it.
    pub fn delete<Q: Ranked>(&mut self, query: &Q) -> (removed: Option<T>)
        requires
            ascending(old(self)@),
        ensures
            ascending(final(self)@),
            match removed {
                Some(x) => {
                    let idx = cut_of(old(self)@, query.rank());
                    &&& 0 <= idx < old(self)@.len()
                    &&& x == old(self)@[idx]
                    &&& x.rank() == query.rank()
                    &&& final(self)@ == old(self)@.remove(idx)
                },
                None => {
                    &&& final(self)@ == old(self)@
                    &&& forall|j: int|
                        0 <= j < old(self)@.len() ==> (#[trigger] old(self)@[j]).rank()
                            != query.rank()
                },
            },
    {
        let t = query.rank_of();
        let idx = self.search(t);
        proof {
            lemma_cut_unique(self@, t as int, idx as int);
        }
        if idx < self.items.len() && self.items[idx].rank_of() == t {
            let x = self.items.remove(idx);
            Some(x)
        } else {
            None
        }
    }

    /// The position of the element that has the rank of `query`, if the leaf
    /// holds one.
    pub fn try_select<Q: Ranked>(&self, query: &Q) -> (pos: Option<usize>)
        requires
            ascending(self@),
        ensures
            match pos {
                Some(idx) => idx < self@.len() && self@[idx as int].rank() == query.rank(),
                None => forall|j: int|
                    0 <= j < self@.len() ==> (#[trigger] self@[j]).rank() != query.rank(),
            },
    {
        let t = query.rank_of();
        let idx = self.search(t);
        if idx < self.items.len() && self.items[idx].rank_of() == t {
            Some(idx)
        } else {
            None
        }
    }

    /// Whether the leaf holds an element that has the rank of `query`.
    pub fn contains<Q: Ranked>(&self, query: &Q) -> (found: bool)
        requires
            ascending(self@),
        ensures
            found <==> exists|j: int|
                0 <= j < self@.len() && (#[trigger] self@[j]).rank() == query.rank(),
    {
        self.try_select(query).is_some()
    }

    /// The position at which a range bound parts the leaf. For the start of a
    /// range this is the first position inside the range; for its end, the
    /// first position past it.
    pub fn rank<Q: Ranked>(&self, bound: &Bound<&Q>, is_start: bool) -> (pos: usize)
        requires
            ascending(self@),
        ensures
            pos <= self@.len(),
            is_start ==> forall|j: int|
                0 <= j < self@.len() ==> (j >= pos <==> above_start(
                    *bound,
                    (#[trigger] self@[j]).rank(),
                )),
            !is_start ==> forall|j: int|
                0 <= j < self@.len() ==> (j < pos <==> below_end(
                    *bound,
                    (#[trigger] self@[j]).rank(),
                )),
    {
        match bound {
            Bound::Included(q) => {
                if is_start {
                    self.search(q.rank_of())
                } else {
                    self.search_above(q.rank_of())
                }
            },
            Bound::Excluded(q) => {
                if is_start {
                    self.search_above(q.rank_of())
                } else {
                    self.search(q.rank_of())
                }
            },
            Bound::Unbounded => {
                if is_start {
                    0
                } else {
                    self.items.len()
                }
            },
        }
    }

    /// Parts the leaf at its midpoint: the lower half stays, the upper half is
    /// returned.
    pub fn halve(&mut self) -> (upper: Vec<T>)
        ensures
            final(self)@ == old(self)@.subrange(0, (old(self)@.len() / 2) as int),
            upper@ == old(self)@.subrange((old(self)@.len() / 2) as int, old(self)@.len() as int),
    {
        let mid = self.items.len() / 2;
        self.items.split_off(mid)
    }
}

} // verus!
