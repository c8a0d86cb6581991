//! Change events: what a mutation of the tree tells a replica, and what the
//! replica makes of it.

use vstd::prelude::*;
use crate::element::Ranked;
use crate::node::{cut_of, is_cut, lemma_cut_unique};

verus! {

/// One step of a change to the tree. Nodes are named by the rank of their
/// greatest element.
#[derive(Debug, PartialEq, Eq)]
pub enum ChangeEvent<T> {
    /// A node with these elements is now found under this greatest element.
    InsertNode(T, Vec<T>),
    /// The node found under this greatest element is gone.
    RemoveNode(T),
    /// The node found under the first element takes in the second, at its
    /// sorted position.
    InsertAt(T, T),
    /// The node found under the first element gives up the element that has
    /// the rank of the second.
    RemoveAt(T, T),
}

/// `s` with `x` put in at the position that its rank has in `s`.
pub open spec fn place<T: Ranked>(s: Seq<T>, x: T) -> Seq<T> {
    s.insert(cut_of(s, x.rank()), x)
}

/// `s` without the element of rank `r`, where it holds one.
pub open spec fn displace<T: Ranked>(s: Seq<T>, r: int) -> Seq<T> {
    let idx = cut_of(s, r);
    if 0 <= idx < s.len() && s[idx].rank() == r {
        s.remove(idx)
    } else {
        s
    }
}

/// The replica after one event: a map from the rank of each node's greatest
/// element to the elements of the node.
pub open spec fn apply<T: Ranked>(m: Map<int, Seq<T>>, e: ChangeEvent<T>) -> Map<int, Seq<T>> {
    match e {
        ChangeEvent::InsertNode(k, items) => m.insert(k.rank(), items@),
        ChangeEvent::RemoveNode(k) => m.remove(k.rank()),
        ChangeEvent::InsertAt(k, x) => if m.dom().contains(k.rank()) {
            m.insert(k.rank(), place(m[k.rank()], x))
        } else {
            m
        },
        ChangeEvent::RemoveAt(k, x) => if m.dom().contains(k.rank()) {
            m.insert(k.rank(), displace(m[k.rank()], x.rank()))
        } else {
            m
        },
    }
}

/// The replica after a run of events, applied first to last.
pub open spec fn replay<T: Ranked>(m: Map<int, Seq<T>>, events: Seq<ChangeEvent<T>>) -> Map<
    int,
    Seq<T>,
>
    decreases events.len(),
{
    if events.len() == 0 {
        m
    } else {
        apply(replay(m, events.drop_last()), events.last())
    }
}

/// `e` announces a node with the elements `items` under the greatest element
/// `k`.
pub open spec fn is_insert_node<T>(e: ChangeEvent<T>, k: T, items: Seq<T>) -> bool {
    match e {
        ChangeEvent::InsertNode(key, held) => key == k && held@ == items,
        _ => false,
    }
}

/// Replaying two batches one after the other is replaying them joined.
pub proof fn lemma_replay_concat<T: Ranked>(
    m: Map<int, Seq<T>>,
    first: Seq<ChangeEvent<T>>,
    second: Seq<ChangeEvent<T>>,
)
    ensures
        replay(m, first + second) == replay(replay(m, first), second),
    decreases second.len(),
{
    if second.len() == 0 {
        assert(first + second =~= first);
    } else {
        lemma_replay_concat(m, first, second.drop_last());
        assert((first + second).drop_last() =~= first + second.drop_last());
    }
}

/// Putting an element in where its rank parts the sequence.
pub proof fn lemma_place_at<T: Ranked>(s: Seq<T>, x: T, idx: int)
    requires
        is_cut(s, x.rank(), idx),
    ensures
        place(s, x) == s.insert(idx, x),
{
    lemma_cut_unique(s, x.rank(), idx);
}

/// Taking out the element found where its rank parts the sequence.
pub proof fn lemma_displace_at<T: Ranked>(s: Seq<T>, r: int, idx: int)
    requires
        is_cut(s, r, idx),
        0 <= idx < s.len(),
        s[idx].rank() == r,
    ensures
        displace(s, r) == s.remove(idx),
{
    lemma_cut_unique(s, r, idx);
}

/// A batch of one event does what the event does.
pub proof fn lemma_replay_one<T: Ranked>(m: Map<int, Seq<T>>, events: Seq<ChangeEvent<T>>)
    requires
        events.len() == 1,
    ensures
        replay(m, events) == apply(m, events[0]),
{
    assert(events.drop_last().len() == 0);
    assert(replay(m, events.drop_last()) == m);
}

/// A batch of two events does what the first does, then the second.
pub proof fn lemma_replay_two<T: Ranked>(m: Map<int, Seq<T>>, events: Seq<ChangeEvent<T>>)
    requires
        events.len() == 2,
    ensures
        replay(m, events) == apply(apply(m, events[0]), events[1]),
{
    lemma_replay_one(m, events.drop_last());
}

/// A batch of three events does what each does, first to last.
pub proof fn lemma_replay_three<T: Ranked>(m: Map<int, Seq<T>>, events: Seq<ChangeEvent<T>>)
    requires
        events.len() == 3,
    ensures
        replay(m, events) == apply(apply(apply(m, events[0]), events[1]), events[2]),
{
    lemma_replay_two(m, events.drop_last());
}

/// Taking out the element of a rank and putting in another of that rank
/// leaves the other in its place.
pub proof fn lemma_displace_place<T: Ranked>(s: Seq<T>, idx: int, v: T)
    requires
        is_cut(s, v.rank(), idx),
        0 <= idx < s.len(),
        s[idx].rank() == v.rank(),
        forall|j: int| idx < j < s.len() ==> (#[trigger] s[j]).rank() > v.rank(),
    ensures
        place(displace(s, v.rank()), v) == s.update(idx, v),
{
    lemma_displace_at(s, v.rank(), idx);
    let t = s.remove(idx);
    assert(is_cut(t, v.rank(), idx)) by {
        assert forall|j: int| idx <= j < t.len() implies (#[trigger] t[j]).rank() >= v.rank() by {
            assert(t[j] == s[j + 1]);
        }
    }
    lemma_place_at(t, v, idx);
    assert(t.insert(idx, v) =~= s.update(idx, v));
}

/// A node of the replica holds an element of rank `r`.
pub open spec fn replica_holds<T: Ranked>(m: Map<int, Seq<T>>, r: int) -> bool {
    exists|k: int, j: int|
        m.dom().contains(k) && 0 <= j < m[k].len() && (#[trigger] m[k][j]).rank() == r
}

/// The elements of all nodes of a replica, each under its rank.
pub open spec fn flattened<T: Ranked>(m: Map<int, Seq<T>>) -> Map<int, T> {
    Map::new(
        |r: int| replica_holds(m, r),
        |r: int|
            {
                let (k, j) = choose|k: int, j: int|
                    m.dom().contains(k) && 0 <= j < m[k].len() && (#[trigger] m[k][j]).rank()
                        == r;
                m[k][j]
            },
    )
}

} // verus!
