//! The ordered set: an index of leaves, each filed under the rank of its
//! greatest element.

use vstd::prelude::*;
use crate::change::{
    displace, flattened, is_insert_node, lemma_displace_at,
    lemma_displace_place, lemma_place_at, lemma_replay_one, lemma_replay_three,
    lemma_replay_two, replay, replica_holds, ChangeEvent,
};
use crate::element::{Ranked, Replicate};
use crate::layout::{
    chunk_has, content, cut_out, fresh, halved, last_ranks, lemma_content_at,
    lemma_content_count, lemma_content_holds, lemma_elsewhere, lemma_first_leaf,
    lemma_fresh_rising, lemma_halved, lemma_halves_fresh, lemma_leaf_cut, lemma_leaf_drop,
    lemma_leaf_put, lemma_leaf_remove, lemma_ordered_ascending, lemma_shape_at,
    lemma_shape_halves, lemma_shape_leaf, lemma_shape_remove, lemma_shape_update,
    lemma_target_unique, lemma_total_bound, lemma_total_remove, lemma_total_take,
    lemma_total_update, ordered, put_at, rising, shape_of, target_of, targets, total, valid,
};
use crate::node::{ascending, cut_of, lemma_cut_unique, Node};
use vstd::pervasive::unreached;

verus! {

/// The size that a leaf may reach unless another is asked for.
pub const DEFAULT_INNER_SIZE: usize = 1024;

/// A leaf in the index, with the element it is filed under.
struct IndexEntry<T> {
    key: T,
    node: Node<T>,
}

/// An ordered set of ranked elements, kept in leaves of bounded size.
pub struct BTreeSet<T: Ranked> {
    index: Vec<IndexEntry<T>>,
    node_capacity: usize,
}

/// A reference to an element that a set holds.
pub struct Ref<'a, T> {
    item: &'a T,
}

impl<'a, T> View for Ref<'a, T> {
    type V = T;

    closed spec fn view(&self) -> T {
        *self.item
    }
}

impl<'a, T> Ref<'a, T> {
    /// The element referred to.
    pub fn get(&self) -> (item: &T)
        ensures
            *item == self@,
    {
        self.item
    }
}

/// What a set holds after the elements of `items` were put in, first to
/// last: of two elements of one rank, the later.
pub open spec fn gathered<T: Ranked>(items: Seq<T>) -> Map<int, T>
    decreases items.len(),
{
    if items.len() == 0 {
        Map::empty()
    } else {
        gathered(items.drop_last()).insert(items.last().rank(), items.last())
    }
}

/// The leaves `ls` after leaf `slot` was parted at its midpoint and `value`
/// put into the half where it belongs.
pub open spec fn split_leaves<T: Ranked>(ls: Seq<Seq<T>>, slot: int, value: T) -> Seq<Seq<T>> {
    let parted = halved(ls, slot);
    let side = if value.rank() <= parted[slot].last().rank() {
        slot
    } else {
        slot + 1
    };
    parted.update(side, put_at(parted[side], cut_of(parted[side], value.rank()), value))
}

/// The leaves `ls` after `value` was put into leaf `slot`, which is parted
/// first where it is full.
pub open spec fn put_leaves<T: Ranked>(ls: Seq<Seq<T>>, cap: nat, slot: int, value: T) -> Seq<
    Seq<T>,
> {
    if ls[slot].len() >= cap {
        split_leaves(ls, slot, value)
    } else {
        ls.update(slot, put_at(ls[slot], cut_of(ls[slot], value.rank()), value))
    }
}

/// The leaves `ls` after the element of rank `r` was taken out of leaf
/// `slot`, which goes with its only element.
pub open spec fn remove_leaves<T: Ranked>(ls: Seq<Seq<T>>, slot: int, r: int) -> Seq<Seq<T>> {
    if ls[slot].len() == 1 {
        ls.remove(slot)
    } else {
        ls.update(slot, ls[slot].remove(cut_of(ls[slot], r)))
    }
}

/// The leaves `ls`, bounded by `cap`, after `value` was put in: one leaf for
/// the first element, else the leaf where it belongs changed or parted.
pub open spec fn after_put<T: Ranked>(ls: Seq<Seq<T>>, cap: nat, value: T) -> Seq<Seq<T>> {
    if ls.len() == 0 {
        seq![seq![value]]
    } else {
        put_leaves(ls, cap, target_of(last_ranks(ls), value.rank()), value)
    }
}

/// The leaves `ls`, bounded by `cap`, after the elements of `items` were put
/// in, first to last.
pub open spec fn after_all<T: Ranked>(ls: Seq<Seq<T>>, cap: nat, items: Seq<T>) -> Seq<Seq<T>>
    decreases items.len(),
{
    if items.len() == 0 {
        ls
    } else {
        after_put(after_all(ls, cap, items.drop_last()), cap, items.last())
    }
}

/// The leaves `ls` after the element of rank `r` was taken out, where they
/// hold one.
pub open spec fn after_remove<T: Ranked>(ls: Seq<Seq<T>>, r: int) -> Seq<Seq<T>> {
    if content(ls).dom().contains(r) {
        remove_leaves(ls, target_of(last_ranks(ls), r), r)
    } else {
        ls
    }
}

/// The batch of events that tells of `value` put into the leaves `ls`,
/// bounded by `cap`: a new node for the first element; for a full leaf, its
/// node gone and two nodes in its place; for an element whose rank the leaf
/// holds, that element out and `value` in; for one ranked below the leaf's
/// greatest, `value` in; for one ranked above it, the node gone and back
/// under `value`.
pub open spec fn put_batch<T: Ranked>(
    ls: Seq<Seq<T>>,
    cap: nat,
    value: T,
    events: Seq<ChangeEvent<T>>,
) -> bool {
    if ls.len() == 0 {
        events.len() == 1 && is_insert_node(events[0], value, seq![value])
    } else {
        let slot = target_of(last_ranks(ls), value.rank());
        let leaf = ls[slot];
        let max = leaf.last();
        let after = after_put(ls, cap, value);
        if leaf.len() >= cap {
            &&& events.len() == 3
            &&& events[0] == ChangeEvent::RemoveNode(max)
            &&& is_insert_node(events[1], after[slot].last(), after[slot])
            &&& is_insert_node(events[2], after[slot + 1].last(), after[slot + 1])
        } else if content(ls).dom().contains(value.rank()) {
            events =~= seq![
                ChangeEvent::RemoveAt(max, content(ls)[value.rank()]),
                ChangeEvent::InsertAt(max, value),
            ]
        } else if value.rank() < max.rank() {
            events =~= seq![ChangeEvent::InsertAt(max, value)]
        } else {
            &&& events.len() == 2
            &&& events[0] == ChangeEvent::RemoveNode(max)
            &&& is_insert_node(events[1], value, leaf.push(value))
        }
    }
}

/// The batch of events that tells of the element of rank `r` taken out of
/// the leaves `ls`: nothing where no leaf holds it; for the only element of
/// a leaf, the node gone; for an element below the leaf's greatest, that
/// element out; for the greatest, the node gone and back under the element
/// before it.
pub open spec fn remove_batch<T: Ranked>(
    ls: Seq<Seq<T>>,
    r: int,
    events: Seq<ChangeEvent<T>>,
) -> bool {
    if !content(ls).dom().contains(r) {
        events.len() == 0
    } else {
        let leaf = ls[target_of(last_ranks(ls), r)];
        let max = leaf.last();
        if leaf.len() == 1 {
            events =~= seq![ChangeEvent::RemoveNode(max)]
        } else if r < max.rank() {
            events =~= seq![ChangeEvent::RemoveAt(max, content(ls)[r])]
        } else {
            &&& events.len() == 2
            &&& events[0] == ChangeEvent::RemoveNode(max)
            &&& is_insert_node(events[1], leaf[leaf.len() - 2], leaf.drop_last())
        }
    }
}

impl<T: Ranked> View for BTreeSet<T> {
    type V = Map<int, T>;

    /// The elements, each under its rank.
    closed spec fn view(&self) -> Map<int, T> {
        content(self.leaves())
    }
}

impl<T: Ranked> BTreeSet<T> {
    /// The elements of each leaf, in the order of the index.
    pub closed spec fn leaves(&self) -> Seq<Seq<T>> {
        Seq::new(self.index@.len(), |i: int| self.index@[i].node@)
    }

    /// The rank under which each leaf is filed, in the order of the index.
    pub closed spec fn keys(&self) -> Seq<int> {
        Seq::new(self.index@.len(), |i: int| self.index@[i].key.rank())
    }

    /// The element under which each leaf is filed, in the order of the index.
    pub closed spec fn filed(&self) -> Seq<T> {
        Seq::new(self.index@.len(), |i: int| self.index@[i].key)
    }

    /// The leaves as a replica files them: each under the rank of its
    /// greatest element.
    pub closed spec fn shape(&self) -> Map<int, Seq<T>> {
        shape_of(self.keys(), self.leaves())
    }

    /// The size that a leaf may reach.
    pub closed spec fn capacity(&self) -> nat {
        self.node_capacity as nat
    }

    /// What holds of the set between its operations, but for the leaf
    /// `pending`, which may be empty or filed under a rank that is no longer
    /// its greatest.
    pub closed spec fn inv(&self, pending: int) -> bool {
        let ls = self.leaves();
        let keys = self.keys();
        &&& self.node_capacity >= 2
        &&& ordered(ls)
        &&& rising(keys)
        &&& forall|i: int| 0 <= i < ls.len() ==> (#[trigger] ls[i]).len() <= self.node_capacity
        &&& forall|i: int|
            0 <= i < ls.len() && i != pending ==> (#[trigger] ls[i]).len() > 0 && keys[i]
                == ls[i].last().rank()
        &&& forall|i: int|
            0 <= i < ls.len() && i != pending ==> #[trigger] self.filed()[i] == ls[i].last()
        &&& self@.dom().finite()
        &&& self@.dom().len() == total(ls)
        &&& total(ls) <= usize::MAX
    }

    /// What holds of the set between its operations: the leaves are ordered,
    /// none is empty or over the capacity, and each is filed under the rank of
    /// its greatest element.
    pub open spec fn wf(&self) -> bool {
        self.inv(-1)
    }

    /// A set without elements, with leaves of the default size.
    pub fn new() -> (set: Self)
        ensures
            set.wf(),
            set@ == Map::<int, T>::empty(),
            set.shape() == Map::<int, Seq<T>>::empty(),
            set.leaves() == Seq::<Seq<T>>::empty(),
            set.keys() == Seq::<int>::empty(),
            set.capacity() == DEFAULT_INNER_SIZE,
    {
        Self::with_maximum_node_size(DEFAULT_INNER_SIZE)
    }

    /// A set without elements, whose leaves hold up to `node_capacity`
    /// elements.
    pub fn with_maximum_node_size(node_capacity: usize) -> (set: Self)
        requires
            node_capacity >= 2,
        ensures
            set.wf(),
            set@ == Map::<int, T>::empty(),
            set.shape() == Map::<int, Seq<T>>::empty(),
            set.leaves() == Seq::<Seq<T>>::empty(),
            set.keys() == Seq::<int>::empty(),
            set.capacity() == node_capacity,
    {
        let set = BTreeSet { index: Vec::new(), node_capacity };
        proof {
            assert(set.leaves() =~= Seq::<Seq<T>>::empty());
            assert(set.keys() =~= Seq::<int>::empty());
            assert(set@ =~= Map::<int, T>::empty());
            assert(set.shape() =~= Map::<int, Seq<T>>::empty());
        }
        set
    }

    /// The number of leaves.
    pub fn node_count(&self) -> (n: usize)
        ensures
            n == self.leaves().len(),
            n == self.keys().len(),
    {
        self.index.len()
    }

    /// The element under which leaf `i` is filed.
    pub fn node_key(&self, i: usize) -> (key: &T)
        requires
            i < self.leaves().len(),
        ensures
            *key == self.filed()[i as int],
            key.rank() == self.keys()[i as int],
    {
        &self.index[i].key
    }

    /// The elements of leaf `i`.
    pub fn node_items(&self, i: usize) -> (items: &Vec<T>)
        requires
            i < self.leaves().len(),
        ensures
            items@ == self.leaves()[i as int],
    {
        &self.index[i].node.items
    }

    /// Leaf `i`.
    pub fn node(&self, i: usize) -> (node: &Node<T>)
        requires
            i < self.leaves().len(),
        ensures
            node@ == self.leaves()[i as int],
    {
        &self.index[i].node
    }

    /// The first leaf filed under the rank `t` or more.
    pub fn lower_bound(&self, t: i128) -> (slot: usize)
        requires
            self.wf(),
        ensures
            slot <= self.keys().len(),
            forall|i: int| 0 <= i < slot ==> #[trigger] self.keys()[i] < t,
            forall|i: int| slot <= i < self.keys().len() ==> #[trigger] self.keys()[i] >= t,
    {
        let mut lo: usize = 0;
        let mut hi: usize = self.index.len();
        while lo < hi
            invariant
                0 <= lo <= hi <= self.index@.len(),
                self.keys().len() == self.index@.len(),
                rising(self.keys()),
                forall|i: int| 0 <= i < lo ==> #[trigger] self.keys()[i] < t,
                forall|i: int| hi <= i < self.keys().len() ==> #[trigger] self.keys()[i] >= t,
            decreases hi - lo,
        {
            let mid = lo + (hi - lo) / 2;
            assert(self.keys()[mid as int] == self.index@[mid as int].key.rank());
            if self.index[mid].key.rank_of() < t {
                lo = mid + 1;
            } else {
                hi = mid;
            }
        }
        lo
    }

    /// The leaf where an element of rank `t` belongs: the first that is filed
    /// under `t` or more, else the last. There is none in an empty set.
    fn locate_node(&self, t: i128) -> (found: Option<usize>)
        requires
            self.wf(),
        ensures
            match found {
                Some(slot) => targets(self.keys(), slot as int, t as int),
                None => self.keys().len() == 0,
            },
    {
        let n = self.index.len();
        if n == 0 {
            None
        } else {
            let slot = self.lower_bound(t);
            if slot < n {
                Some(slot)
            } else {
                Some(n - 1)
            }
        }
    }

    /// What a well-formed set is made of: ordered leaves within the
    /// capacity, filed under the ranks of their last elements, that hold what
    /// the set holds.
    pub proof fn lemma_wf(&self)
        requires
            self.wf(),
        ensures
            fresh(self.keys(), self.leaves()),
            ordered(self.leaves()),
            rising(self.keys()),
            self@ == content(self.leaves()),
            self.shape() == shape_of(self.keys(), self.leaves()),
            self@.dom().finite(),
            self@.len() == total(self.leaves()),
            self.capacity() >= 2,
            self.filed().len() == self.leaves().len(),
            forall|i: int|
                0 <= i < self.leaves().len() ==> #[trigger] self.filed()[i]
                    == self.leaves()[i].last(),
            forall|i: int|
                0 <= i < self.leaves().len() ==> (#[trigger] self.leaves()[i]).len()
                    <= self.capacity(),
            forall|i: int|
                0 <= i < self.leaves().len() ==> ascending(#[trigger] self.leaves()[i]),
    {
        let ls = self.leaves();
        assert forall|i: int| 0 <= i < ls.len() implies ascending(#[trigger] ls[i]) by {
            assert forall|a: int, b: int| 0 <= a < b < ls[i].len() implies (#[trigger] ls[i][a]).rank()
                < (#[trigger] ls[i][b]).rank() by {
                assert(valid(ls, i, a) && valid(ls, i, b));
            }
        }
    }

    /// Whether the set holds an element that has the rank of `value`.
    pub fn contains<Q: Ranked>(&self, value: &Q) -> (found: bool)
        requires
            self.wf(),
        ensures
            found == self@.dom().contains(value.rank()),
    {
        match self.get(value) {
            Some(_) => true,
            None => false,
        }
    }

    /// The element that has the rank of `value`, if the set holds one.
    pub fn get<'a, Q: Ranked>(&'a self, value: &Q) -> (found: Option<Ref<'a, T>>)
        requires
            self.wf(),
        ensures
            match found {
                Some(r) => self@.dom().contains(value.rank()) && r@ == self@[value.rank()],
                None => !self@.dom().contains(value.rank()),
            },
    {
        let t = value.rank_of();
        proof {
            self.lemma_wf();
        }
        match self.locate_node(t) {
            Some(slot) => {
                assert(self.leaves()[slot as int] == self.index@[slot as int].node@);
                match self.index[slot].node.try_select(value) {
                    Some(position) => {
                        proof {
                            assert(valid(self.leaves(), slot as int, position as int));
                            lemma_content_at(self.leaves(), slot as int, position as int);
                        }
                        Some(Ref { item: &self.index[slot].node.items[position] })
                    },
                    None => {
                        proof {
                            lemma_elsewhere(self.keys(), self.leaves(), slot as int, t as int);
                            if self@.dom().contains(t as int) {
                                let at = lemma_content_holds(self.leaves(), t as int);
                                assert(valid(self.leaves(), at.0, at.1));
                            }
                        }
                        None
                    },
                }
            },
            None => {
                proof {
                    if self@.dom().contains(t as int) {
                        let at = lemma_content_holds(self.leaves(), t as int);
                    }
                }
                None
            },
        }
    }

    /// The number of elements.
    pub fn len(&self) -> (n: usize)
        requires
            self.wf(),
        ensures
            n == self@.len(),
    {
        let mut sum: usize = 0;
        let mut i: usize = 0;
        while i < self.index.len()
            invariant
                0 <= i <= self.index@.len(),
                self.leaves().len() == self.index@.len(),
                sum == total(self.leaves().take(i as int)),
                total(self.leaves()) <= usize::MAX,
            decreases self.index@.len() - i,
        {
            proof {
                lemma_total_take(self.leaves(), i as int);
                lemma_total_take(self.leaves(), i + 1);
                assert(self.leaves()[i as int] == self.index@[i as int].node@);
            }
            sum = sum + self.index[i].node.len();
            i = i + 1;
        }
        proof {
            lemma_total_take(self.leaves(), i as int);
        }
        sum
    }

    /// Files leaf `slot` under the rank of its greatest element, where it is
    /// still filed under `old_max`. Fails, and changes nothing, where the index
    /// has no leaf `slot` or no longer files it under the rank of `old_max`.
    fn commit_update_max(&mut self, slot: usize, old_max: T) -> (res: Result<
        (Option<T>, Vec<ChangeEvent<T>>),
        (),
    >)
        requires
            old(self).inv(slot as int),
            slot < old(self).leaves().len() ==> old(self).leaves()[slot as int].len() > 0,
        ensures
            res is Ok <==> slot < old(self).keys().len() && old(self).keys()[slot as int]
                == old_max.rank(),
            res is Err ==> *final(self) == *old(self),
            res is Ok ==> {
                let leaf = old(self).leaves()[slot as int];
                let events = res->Ok_0.1@;
                &&& final(self).wf()
                &&& final(self).leaves() == old(self).leaves()
                &&& final(self).capacity() == old(self).capacity()
                &&& res->Ok_0.0 is None
                &&& final(self).shape() == old(self).shape().remove(old_max.rank()).insert(
                    leaf.last().rank(),
                    leaf,
                )
                &&& leaf.last().rank() == old_max.rank() ==> events.len() == 0
                &&& leaf.last().rank() != old_max.rank() ==> events.len() == 2 && events[0]
                    == ChangeEvent::RemoveNode(old_max) && is_insert_node(
                    events[1],
                    leaf.last(),
                    leaf,
                )
            },
    {
        if slot >= self.index.len() {
            return Err(());
        }
        assert(self.keys()[slot as int] == self.index@[slot as int].key.rank());
        assert(self.leaves()[slot as int] == self.index@[slot as int].node@);
        if self.index[slot].key.rank_of() != old_max.rank_of() {
            return Err(());
        }
        let ghost keys0 = self.keys();
        let ghost filed0 = self.filed();
        let ghost ls = self.leaves();
        let mut events: Vec<ChangeEvent<T>> = Vec::new();
        let new_max = match self.index[slot].node.last() {
            Some(x) => x.replicate(),
            None => unreached(),
        };
        self.index[slot].key = new_max.replicate();
        proof {
            assert(self.leaves() =~= ls);
            assert(self.keys() =~= keys0.update(slot as int, new_max.rank()));
            assert(self.filed() =~= filed0.update(slot as int, new_max));
            assert(fresh(self.keys(), ls));
            lemma_fresh_rising(self.keys(), ls);
            lemma_shape_update(keys0, ls, slot as int, new_max.rank(), ls[slot as int]);
            assert(ls.update(slot as int, ls[slot as int]) =~= ls);
        }
        if new_max.rank_of() != old_max.rank_of() {
            let contents = replicate_items(&self.index[slot].node.items);
            events.push(ChangeEvent::RemoveNode(old_max));
            events.push(ChangeEvent::InsertNode(new_max, contents));
        }
        Ok((None, events))
    }

    /// Takes leaf `slot` out of the index, where it is empty and still filed
    /// under `old_max`. Fails, and changes nothing, where the index has no leaf
    /// `slot`, no longer files it under the rank of `old_max`, or finds
    /// elements in it.
    fn commit_make_unreachable(&mut self, slot: usize, old_max: T) -> (res: Result<
        (Option<T>, Vec<ChangeEvent<T>>),
        (),
    >)
        requires
            old(self).inv(slot as int),
        ensures
            res is Ok <==> slot < old(self).keys().len() && old(self).keys()[slot as int]
                == old_max.rank() && old(self).leaves()[slot as int].len() == 0,
            res is Err ==> *final(self) == *old(self),
            res is Ok ==> {
                let events = res->Ok_0.1@;
                &&& final(self).wf()
                &&& final(self).leaves() == old(self).leaves().remove(slot as int)
                &&& final(self)@ == old(self)@
                &&& final(self).capacity() == old(self).capacity()
                &&& res->Ok_0.0 is None
                &&& final(self).shape() == old(self).shape().remove(old_max.rank())
                &&& events.len() == 1
                &&& events[0] == ChangeEvent::RemoveNode(old_max)
            },
    {
        if slot >= self.index.len() {
            return Err(());
        }
        assert(self.keys()[slot as int] == self.index@[slot as int].key.rank());
        assert(self.leaves()[slot as int] == self.index@[slot as int].node@);
        if self.index[slot].key.rank_of() != old_max.rank_of() {
            return Err(());
        }
        if self.index[slot].node.len() > 0 {
            return Err(());
        }
        let ghost keys0 = self.keys();
        let ghost filed0 = self.filed();
        let ghost ls = self.leaves();
        let mut events: Vec<ChangeEvent<T>> = Vec::new();
        self.index.remove(slot);
        events.push(ChangeEvent::RemoveNode(old_max));
        proof {
            assert(self.leaves() =~= ls.remove(slot as int));
            assert(self.keys() =~= keys0.remove(slot as int));
            assert(self.filed() =~= filed0.remove(slot as int));
            lemma_leaf_drop(ls, slot as int);
            lemma_shape_remove(keys0, ls, slot as int);
        }
        Ok((None, events))
    }

    /// Parts the full leaf `slot` in two and puts `value` into the half where
    /// it belongs, in the place of an element of its rank where there is one.
    /// Fails, and changes nothing, where the index has no leaf `slot` or no
    /// longer files it under the rank of `old_max`.
    fn commit_split(&mut self, slot: usize, old_max: T, value: T) -> (res: Result<
        (Option<T>, Vec<ChangeEvent<T>>),
        (),
    >)
        requires
            old(self).wf(),
            old(self)@.len() < usize::MAX,
            slot < old(self).leaves().len() ==> old(self).leaves()[slot as int].len() >= 2
                && targets(old(self).keys(), slot as int, value.rank()),
        ensures
            res is Ok <==> slot < old(self).keys().len() && old(self).keys()[slot as int]
                == old_max.rank(),
            res is Err ==> *final(self) == *old(self),
            res is Ok ==> {
                let events = res->Ok_0.1@;
                &&& final(self).wf()
                &&& final(self).capacity() == old(self).capacity()
                &&& final(self)@ == old(self)@.insert(value.rank(), value)
                &&& res->Ok_0.0 == old(self)@.get(value.rank())
                &&& final(self).leaves() == split_leaves(old(self).leaves(), slot as int, value)
                &&& final(self).leaves().len() == old(self).leaves().len() + 1
                &&& final(self).shape() == replay(old(self).shape(), events)
                &&& events.len() == 3
                &&& events[0] == ChangeEvent::RemoveNode(old_max)
                &&& is_insert_node(
                    events[1],
                    final(self).leaves()[slot as int].last(),
                    final(self).leaves()[slot as int],
                )
                &&& is_insert_node(
                    events[2],
                    final(self).leaves()[slot + 1].last(),
                    final(self).leaves()[slot + 1],
                )
            },
    {
        if slot >= self.index.len() {
            return Err(());
        }
        assert(self.keys()[slot as int] == self.index@[slot as int].key.rank());
        assert(self.leaves()[slot as int] == self.index@[slot as int].node@);
        if self.index[slot].key.rank_of() != old_max.rank_of() {
            return Err(());
        }
        let ghost keys0 = self.keys();
        let ghost filed0 = self.filed();
        let ghost ls0 = self.leaves();
        let ghost shape0 = self.shape();
        let ghost ls1 = halved(ls0, slot as int);
        let r = value.rank_of();
        proof {
            self.lemma_wf();
            lemma_halved(keys0, ls0, slot as int, r as int);
        }
        let mut upper = Node { items: self.index[slot].node.halve() };
        assert(self.index@[slot as int].node@ == ls1[slot as int]);
        assert(upper@ == ls1[slot + 1]);
        let lower_rank = match self.index[slot].node.last() {
            Some(x) => x.rank_of(),
            None => unreached(),
        };
        let ghost side: int = if r <= lower_rank { slot as int } else { slot + 1 };
        proof {
            lemma_ordered_ascending(ls1, side);
        }
        let (displaced, idx) = if r <= lower_rank {
            self.index[slot].node.put(value)
        } else {
            upper.put(value)
        };
        let ghost ls2 = ls1.update(side, put_at(ls1[side], idx as int, value));
        proof {
            lemma_leaf_put(ls1, side, idx as int, value);
            lemma_cut_unique(ls1[side], value.rank(), idx as int);
        }
        assert(self.index@[slot as int].node@ == ls2[slot as int]);
        assert(upper@ == ls2[slot + 1]);
        let lower_key = match self.index[slot].node.last() {
            Some(x) => x.replicate(),
            None => unreached(),
        };
        let upper_key = match upper.last() {
            Some(x) => x.replicate(),
            None => unreached(),
        };
        let lower_items = replicate_items(&self.index[slot].node.items);
        let upper_items = replicate_items(&upper.items);
        let mut events: Vec<ChangeEvent<T>> = Vec::new();
        self.index[slot].key = lower_key.replicate();
        self.index.insert(slot + 1, IndexEntry { key: upper_key.replicate(), node: upper });
        events.push(ChangeEvent::RemoveNode(old_max));
        events.push(ChangeEvent::InsertNode(lower_key, lower_items));
        events.push(ChangeEvent::InsertNode(upper_key, upper_items));
        proof {
            let keys2 = keys0.update(slot as int, lower_key.rank()).insert(
                slot + 1,
                upper_key.rank(),
            );
            let ls3 = ls0.update(slot as int, ls2[slot as int]).insert(slot + 1, ls2[slot + 1]);
            assert(ls2 =~= ls3);
            assert(self.leaves() =~= ls2);
            assert(self.keys() =~= keys2);
            assert(self.filed() =~= filed0.update(slot as int, lower_key).insert(
                slot + 1,
                upper_key,
            ));
            assert forall|i: int| 0 <= i < ls2.len() implies #[trigger] self.filed()[i]
                == ls2[i].last() by {
                if i < slot {
                    assert(ls2[i] == ls0[i]);
                    assert(self.filed()[i] == filed0[i]);
                } else if i > slot + 1 {
                    assert(ls2[i] == ls0[i - 1]);
                    assert(self.filed()[i] == filed0[i - 1]);
                }
            }
            lemma_halves_fresh(
                keys0,
                ls0,
                slot as int,
                ls2[slot as int],
                ls2[slot + 1],
                self.node_capacity as nat,
            );
            lemma_fresh_rising(keys2, ls2);
            lemma_shape_halves(
                keys0,
                ls0,
                slot as int,
                lower_key.rank(),
                upper_key.rank(),
                ls2[slot as int],
                ls2[slot + 1],
            );
            lemma_replay_three(shape0, events@);
        }
        Ok((displaced, events))
    }

    /// Puts `value` into the set, in the place of the element of its rank
    /// where there is one. Returns that element, and the events that take a
    /// replica from the set as it was to the set as it is.
    pub fn put_cdc(&mut self, value: T) -> (res: (Option<T>, Vec<ChangeEvent<T>>))
        requires
            old(self).wf(),
            old(self)@.len() < usize::MAX,
        ensures
            final(self).wf(),
            final(self).capacity() == old(self).capacity(),
            final(self)@ == old(self)@.insert(value.rank(), value),
            res.0 == old(self)@.get(value.rank()),
            final(self).shape() == replay(old(self).shape(), res.1@),
            final(self).leaves() == after_put(old(self).leaves(), old(self).capacity(), value),
            put_batch(old(self).leaves(), old(self).capacity(), value, res.1@),
    {
        let r = value.rank_of();
        let ghost keys0 = self.keys();
        let ghost filed0 = self.filed();
        let ghost ls0 = self.leaves();
        let ghost shape0 = self.shape();
        let mut events: Vec<ChangeEvent<T>> = Vec::new();
        proof {
            self.lemma_wf();
            assert(keys0 =~= last_ranks(ls0));
        }
        let slot = match self.locate_node(r) {
            Some(slot) => slot,
            None => {
                let mut first: Vec<T> = Vec::new();
                first.push(value.replicate());
                let mut contents: Vec<T> = Vec::new();
                contents.push(value.replicate());
                events.push(ChangeEvent::InsertNode(value.replicate(), contents));
                self.index.push(IndexEntry { key: value, node: Node { items: first } });
                proof {
                    lemma_first_leaf(value);
                    assert(ls0 =~= Seq::<Seq<T>>::empty());
                    assert(self.leaves() =~= seq![seq![value]]);
                    assert(self.keys() =~= seq![value.rank()]);
                    assert(self.filed() =~= seq![value]);
                    assert(first@ =~= seq![value]);
                    assert(contents@ =~= seq![value]);
                    assert(old(self)@ =~= Map::<int, T>::empty());
                    assert(shape0 =~= Map::<int, Seq<T>>::empty());
                    lemma_replay_one(shape0, events@);
                }
                return (None, events);
            },
        };
        assert(self.keys()[slot as int] == self.index@[slot as int].key.rank());
        assert(self.leaves()[slot as int] == self.index@[slot as int].node@);
        proof {
            lemma_target_unique(keys0, slot as int, r as int);
        }
        if self.index[slot].node.len() >= self.node_capacity {
            let old_max = self.index[slot].key.replicate();
            assert(old_max == filed0[slot as int]);
            return match self.commit_split(slot, old_max, value) {
                Ok(done) => {
                    proof {
                        assert(targets(keys0, slot as int, value.rank()));
                    }
                    done
                },
                Err(_) => unreached(),
            };
        }
        let old_max = match self.index[slot].node.last() {
            Some(x) => x.replicate(),
            None => unreached(),
        };
        let (displaced, idx) = self.index[slot].node.put(value.replicate());
        let ghost ls1 = ls0.update(slot as int, put_at(ls0[slot as int], idx as int, value));
        proof {
            lemma_elsewhere(keys0, ls0, slot as int, r as int);
            lemma_leaf_put(ls0, slot as int, idx as int, value);
            lemma_cut_unique(ls0[slot as int], value.rank(), idx as int);
            lemma_shape_leaf(keys0, ls0, slot as int, ls1[slot as int]);
            assert(self.leaves() =~= ls1);
            assert(self.keys() =~= keys0);
            assert(self.filed() =~= filed0);
            assert(self.inv(slot as int));
        }
        match displaced {
            Some(old) => {
                if idx + 1 == self.index[slot].node.len() {
                    self.index[slot].key = value.replicate();
                    proof {
                        assert(self.filed() =~= filed0.update(slot as int, value));
                    }
                }
                proof {
                    assert(self.leaves() =~= ls1);
                    assert(self.keys() =~= keys0);
                }
                events.push(ChangeEvent::RemoveAt(old_max.replicate(), old.replicate()));
                events.push(ChangeEvent::InsertAt(old_max, value));
                proof {
                    lemma_ordered_ascending(ls0, slot as int);
                    lemma_displace_place(ls0[slot as int], idx as int, value);
                    lemma_replay_two(shape0, events@);
                    let k = keys0[slot as int];
                    let m1 = shape0.insert(k, displace(ls0[slot as int], value.rank()));
                    assert(m1.insert(k, ls1[slot as int]) =~= shape0.insert(k, ls1[slot as int]));
                    assert(targets(keys0, slot as int, value.rank()));
                    assert(events@ =~= seq![
                        ChangeEvent::RemoveAt(old_max, old),
                        ChangeEvent::InsertAt(old_max, value),
                    ]);
                }
                (Some(old), events)
            },
            None => {
                if idx + 1 < self.index[slot].node.len() {
                    events.push(ChangeEvent::InsertAt(old_max, value));
                    proof {
                        lemma_place_at(ls0[slot as int], value, idx as int);
                        lemma_replay_one(shape0, events@);
                        lemma_ordered_ascending(ls0, slot as int);
                        assert(ls0[slot as int][idx as int].rank() <= ls0[slot as int].last().rank());
                        assert(targets(keys0, slot as int, value.rank()));
                        assert(events@ =~= seq![ChangeEvent::InsertAt(old_max, value)]);
                    }
                    (None, events)
                } else {
                    let ghost pending = self.shape();
                    match self.commit_update_max(slot, old_max) {
                        Ok(done) => {
                            proof {
                                lemma_replay_two(shape0, done.1@);
                                let k = keys0[slot as int];
                                assert(pending.remove(k).insert(value.rank(), ls1[slot as int])
                                    =~= shape0.remove(k).insert(value.rank(), ls1[slot as int]));
                                assert(targets(keys0, slot as int, value.rank()));
                                assert(ls1[slot as int] =~= ls0[slot as int].push(value));
                            }
                            (None, done.1)
                        },
                        Err(_) => unreached(),
                    }
                }
            },
        }
    }

    /// Adds `value` to the set, in the place of the element of its rank where
    /// there is one. Returns whether the set held no element of that rank.
    pub fn insert(&mut self, value: T) -> (inserted: bool)
        requires
            old(self).wf(),
            old(self)@.len() < usize::MAX,
        ensures
            final(self).wf(),
            final(self).capacity() == old(self).capacity(),
            final(self)@ == old(self)@.insert(value.rank(), value),
            inserted == !old(self)@.dom().contains(value.rank()),
            final(self).leaves() == after_put(old(self).leaves(), old(self).capacity(), value),
    {
        let (displaced, _) = self.put_cdc(value);
        displaced.is_none()
    }

    /// Takes the element that has the rank of `value` out of the set, if it
    /// holds one. Returns that element, and the events that take a replica from
    /// the set as it was to the set as it is.
    pub fn remove_cdc<Q: Ranked>(&mut self, value: &Q) -> (res: (Option<T>, Vec<ChangeEvent<T>>))
        requires
            old(self).wf(),
        ensures
            final(self).wf(),
            final(self).capacity() == old(self).capacity(),
            final(self)@ == old(self)@.remove(value.rank()),
            res.0 == old(self)@.get(value.rank()),
            final(self).shape() == replay(old(self).shape(), res.1@),
            final(self).leaves() == after_remove(old(self).leaves(), value.rank()),
            remove_batch(old(self).leaves(), value.rank(), res.1@),
    {
        let r = value.rank_of();
        let ghost keys0 = self.keys();
        let ghost filed0 = self.filed();
        let ghost ls0 = self.leaves();
        let ghost shape0 = self.shape();
        let mut events: Vec<ChangeEvent<T>> = Vec::new();
        proof {
            self.lemma_wf();
            assert(keys0 =~= last_ranks(ls0));
        }
        let slot = self.lower_bound(r);
        if slot >= self.index.len() {
            proof {
                if self@.dom().contains(r as int) {
                    let at = lemma_content_holds(ls0, r as int);
                    assert(valid(ls0, at.0, ls0[at.0].len() - 1));
                    assert(keys0[at.0] < r);
                }
                assert(self@.remove(r as int) =~= self@);
            }
            return (None, events);
        }
        assert(self.keys()[slot as int] == self.index@[slot as int].key.rank());
        assert(self.leaves()[slot as int] == self.index@[slot as int].node@);
        let old_max = match self.index[slot].node.last() {
            Some(x) => x.replicate(),
            None => unreached(),
        };
        let deleted = self.index[slot].node.delete(value);
        proof {
            lemma_target_unique(keys0, slot as int, r as int);
        }
        match deleted {
            None => {
                proof {
                    assert(self.leaves() =~= ls0);
                    assert(self.keys() =~= keys0);
                    assert(self.filed() =~= filed0);
                    lemma_elsewhere(keys0, ls0, slot as int, r as int);
                    if old(self)@.dom().contains(r as int) {
                        let at = lemma_content_holds(ls0, r as int);
                        assert(valid(ls0, at.0, at.1));
                    }
                    assert(old(self)@.remove(r as int) =~= old(self)@);
                }
                (None, events)
            },
            Some(x) => {
                let ghost idx = cut_of(ls0[slot as int], r as int);
                let ghost ls1 = ls0.update(slot as int, ls0[slot as int].remove(idx));
                proof {
                    assert(valid(ls0, slot as int, idx));
                    lemma_leaf_remove(ls0, slot as int, idx);
                    lemma_shape_leaf(keys0, ls0, slot as int, ls1[slot as int]);
                    assert(self.leaves() =~= ls1);
                    assert(self.keys() =~= keys0);
                    assert(self.filed() =~= filed0);
                    assert(self.inv(slot as int));
                }
                let ghost pending = self.shape();
                let ghost k = keys0[slot as int];
                if self.index[slot].node.len() == 0 {
                    match self.commit_make_unreachable(slot, old_max) {
                        Ok(done) => {
                            proof {
                                lemma_replay_one(shape0, done.1@);
                                assert(pending.remove(k) =~= shape0.remove(k));
                                assert(targets(keys0, slot as int, value.rank()));
                                assert(done.1@ =~= seq![ChangeEvent::RemoveNode(old_max)]);
                                assert(ls1.remove(slot as int) =~= ls0.remove(slot as int));
                            }
                            (Some(x), done.1)
                        },
                        Err(_) => unreached(),
                    }
                } else {
                    let same = match self.index[slot].node.last() {
                        Some(last) => last.rank_of() == old_max.rank_of(),
                        None => unreached(),
                    };
                    if same {
                        events.push(ChangeEvent::RemoveAt(old_max, x.replicate()));
                        proof {
                            lemma_displace_at(ls0[slot as int], r as int, idx);
                            lemma_replay_one(shape0, events@);
                            assert(targets(keys0, slot as int, value.rank()));
                            assert(events@ =~= seq![ChangeEvent::RemoveAt(old_max, x)]);
                        }
                        (Some(x), events)
                    } else {
                        match self.commit_update_max(slot, old_max) {
                            Ok(done) => {
                                proof {
                                    lemma_replay_two(shape0, done.1@);
                                    let nk = ls1[slot as int].last().rank();
                                    assert(pending.remove(k).insert(nk, ls1[slot as int])
                                        =~= shape0.remove(k).insert(nk, ls1[slot as int]));
                                    assert(targets(keys0, slot as int, value.rank()));
                                    assert(idx == ls0[slot as int].len() - 1);
                                    assert(ls1[slot as int] =~= ls0[slot as int].drop_last());
                                }
                                (Some(x), done.1)
                            },
                            Err(_) => unreached(),
                        }
                    }
                }
            },
        }
    }

    /// Takes the element that has the rank of `value` out of the set, if it
    /// holds one, and returns it.
    pub fn remove<Q: Ranked>(&mut self, value: &Q) -> (removed: Option<T>)
        requires
            old(self).wf(),
        ensures
            final(self).wf(),
            final(self).capacity() == old(self).capacity(),
            final(self)@ == old(self)@.remove(value.rank()),
            removed == old(self)@.get(value.rank()),
            final(self).leaves() == after_remove(old(self).leaves(), value.rank()),
    {
        let (removed, _) = self.remove_cdc(value);
        removed
    }

    /// Takes the stretch from position `a` to before position `b` out of leaf
    /// `i`. A leaf that keeps elements is filed under the rank of its last; one
    /// that keeps none leaves the index.
    pub fn cut_leaf(&mut self, i: usize, a: usize, b: usize)
        requires
            old(self).wf(),
            i < old(self).leaves().len(),
            a <= b <= old(self).leaves()[i as int].len(),
        ensures
            final(self).wf(),
            final(self).capacity() == old(self).capacity(),
            final(self)@ == old(self)@.remove_keys(
                Set::new(|r: int| chunk_has(old(self).leaves()[i as int], a as int, b as int, r)),
            ),
            a == 0 && b == old(self).leaves()[i as int].len() ==> final(self).leaves() == old(
                self,
            ).leaves().remove(i as int),
            !(a == 0 && b == old(self).leaves()[i as int].len()) ==> final(self).leaves() == old(
                self,
            ).leaves().update(i as int, cut_out(old(self).leaves()[i as int], a as int, b as int)),
    {
        let ghost keys0 = self.keys();
        let ghost filed0 = self.filed();
        let ghost ls0 = self.leaves();
        let ghost whole = ls0[i as int];
        let ghost ls1 = ls0.update(i as int, cut_out(whole, a as int, b as int));
        proof {
            self.lemma_wf();
            lemma_leaf_cut(ls0, i as int, a as int, b as int);
            lemma_total_update(ls0, i as int, cut_out(whole, a as int, b as int));
        }
        assert(self.leaves()[i as int] == self.index@[i as int].node@);
        let len = self.index[i].node.len();
        if a == 0 && b == len {
            self.index.remove(i);
            proof {
                assert(self.leaves() =~= ls0.remove(i as int));
                assert(self.keys() =~= keys0.remove(i as int));
                assert(self.filed() =~= filed0.remove(i as int));
                lemma_leaf_drop(ls1, i as int);
                assert(ls1.remove(i as int) =~= ls0.remove(i as int));
                lemma_total_remove(ls0, i as int);
                lemma_shape_remove(keys0, ls0, i as int);
                lemma_content_count(self.leaves());
            }
        } else {
            let mut rest = self.index[i].node.items.split_off(b);
            self.index[i].node.items.truncate(a);
            self.index[i].node.items.append(&mut rest);
            assert(self.index@[i as int].node@ =~= cut_out(whole, a as int, b as int));
            let new_key = match self.index[i].node.last() {
                Some(x) => x.replicate(),
                None => unreached(),
            };
            self.index[i].key = new_key;
            proof {
                assert(self.leaves() =~= ls1);
                assert(self.keys() =~= keys0.update(i as int, ls1[i as int].last().rank()));
                assert(self.filed() =~= filed0.update(i as int, ls1[i as int].last()));
                assert(fresh(self.keys(), ls1));
                lemma_fresh_rising(self.keys(), ls1);
                lemma_content_count(ls1);
            }
        }
    }

    /// A set that holds more than one leaf may hold is kept in two leaves or
    /// more, none of them over the capacity.
    pub proof fn lemma_split_threshold(&self)
        requires
            self.wf(),
            self@.len() > self.capacity(),
        ensures
            self.leaves().len() >= 2,
            forall|i: int|
                0 <= i < self.leaves().len() ==> 0 < (#[trigger] self.leaves()[i]).len()
                    <= self.capacity(),
    {
        self.lemma_wf();
        let ls = self.leaves();
        lemma_total_bound(ls, self.capacity());
        if ls.len() < 2 {
            assert(ls.len() * self.capacity() <= self.capacity()) by (nonlinear_arith)
                requires
                    0 <= ls.len() < 2,
            ;
        }
    }

    /// A replica that has the shape of the set holds what the set holds.
    pub proof fn lemma_shape_flattened(&self)
        requires
            self.wf(),
        ensures
            flattened(self.shape()) == self@,
    {
        self.lemma_wf();
        let ls = self.leaves();
        let keys = self.keys();
        let m = self.shape();
        assert forall|r: int| replica_holds(m, r) implies self@.dom().contains(r) && flattened(
            m,
        )[r] == self@[r] by {
            let (k, j) = choose|k: int, j: int|
                m.dom().contains(k) && 0 <= j < m[k].len() && (#[trigger] m[k][j]).rank() == r;
            let i = choose|i: int| 0 <= i < keys.len() && #[trigger] keys[i] == k;
            lemma_shape_at(keys, ls, i);
            assert(valid(ls, i, j));
            lemma_content_at(ls, i, j);
        }
        assert forall|r: int| self@.dom().contains(r) implies replica_holds(m, r) by {
            let at = lemma_content_holds(ls, r);
            lemma_shape_at(keys, ls, at.0);
            assert(m[keys[at.0]][at.1].rank() == r);
        }
        assert(flattened(m) =~= self@);
    }

    /// A set of the elements of `items`, put in first to last.
    pub fn from_iter(items: Vec<T>) -> (set: Self)
        ensures
            set.wf(),
            set@ == gathered(items@),
            set.leaves() == after_all(Seq::empty(), DEFAULT_INNER_SIZE as nat, items@),
            set.capacity() == DEFAULT_INNER_SIZE,
    {
        let mut set = Self::new();
        let mut i: usize = 0;
        while i < items.len()
            invariant
                0 <= i <= items@.len(),
                set.wf(),
                set.capacity() == DEFAULT_INNER_SIZE,
                set@ == gathered(items@.take(i as int)),
                set.leaves() == after_all(
                    Seq::empty(),
                    DEFAULT_INNER_SIZE as nat,
                    items@.take(i as int),
                ),
                set@.len() <= i,
            decreases items@.len() - i,
        {
            proof {
                set.lemma_wf();
                assert(items@.take(i + 1).drop_last() =~= items@.take(i as int));
            }
            set.insert(items[i].replicate());
            i = i + 1;
        }
        proof {
            assert(items@.take(i as int) =~= items@);
        }
        set
    }
}

impl<T: Ranked> Default for BTreeSet<T> {
    /// A set without elements, with leaves of the default size.
    fn default() -> (set: Self)
        ensures
            set.wf(),
            set@ == Map::<int, T>::empty(),
            set.shape() == Map::<int, Seq<T>>::empty(),
            set.leaves() == Seq::<Seq<T>>::empty(),
            set.capacity() == DEFAULT_INNER_SIZE,
    {
        Self::new()
    }
}

/// A vector of copies of the elements of `items`.
fn replicate_items<T: Replicate>(items: &Vec<T>) -> (copies: Vec<T>)
    ensures
        copies@ == items@,
{
    let mut copies: Vec<T> = Vec::new();
    let mut i: usize = 0;
    while i < items.len()
        invariant
            0 <= i <= items@.len(),
            copies@ == items@.take(i as int),
        decreases items@.len() - i,
    {
        copies.push(items[i].replicate());
        proof {
            assert(items@.take(i + 1) =~= items@.take(i as int).push(items@[i as int]));
        }
        i = i + 1;
    }
    proof {
        assert(items@.take(i as int) =~= items@);
    }
    copies
}

} // verus!
