//! What follows from the contracts of the set, the map and their
//! traversals, whatever the elements.

use vstd::prelude::*;
use crate::change::{flattened, lemma_replay_concat, replay, ChangeEvent};
use crate::element::{Ranked, Replicate};
use crate::iter::{yields_greatest, yields_least};
use crate::map::value_of;
use crate::pair::Pair;
use crate::set::BTreeSet;

verus! {

/// Elements handed out one after the other from the front of a traversal
/// rise strictly in rank.
pub proof fn lemma_front_ascends<T: Ranked>(
    remaining: Map<int, T>,
    first: T,
    then: Map<int, T>,
    second: T,
    rest: Map<int, T>,
)
    requires
        yields_least(remaining, Some(first), then),
        yields_least(then, Some(second), rest),
    ensures
        first.rank() < second.rank(),
{
    assert(then.dom().contains(second.rank()));
    assert(remaining.dom().contains(second.rank()));
}

/// Elements handed out one after the other from the back of a traversal
/// fall strictly in rank.
pub proof fn lemma_back_descends<T: Ranked>(
    remaining: Map<int, T>,
    first: T,
    then: Map<int, T>,
    second: T,
    rest: Map<int, T>,
)
    requires
        yields_greatest(remaining, Some(first), then),
        yields_greatest(then, Some(second), rest),
    ensures
        second.rank() < first.rank(),
{
    assert(then.dom().contains(second.rank()));
    assert(remaining.dom().contains(second.rank()));
}

/// An element handed out from the back of a traversal ranks above every
/// element handed out from its front, before or after.
pub proof fn lemma_ends_apart<T: Ranked>(
    remaining: Map<int, T>,
    low: T,
    then: Map<int, T>,
    high: T,
    rest: Map<int, T>,
)
    requires
        yields_least(remaining, Some(low), then),
        yields_greatest(then, Some(high), rest),
    ensures
        low.rank() < high.rank(),
{
    assert(then.dom().contains(high.rank()));
    assert(remaining.dom().contains(high.rank()));
}

/// A traversal that has found nothing finds nothing again, from either end.
pub proof fn lemma_fused<T: Ranked>(
    remaining: Map<int, T>,
    then: Map<int, T>,
    out: Option<T>,
    rest: Map<int, T>,
    from_front_first: bool,
    from_front_next: bool,
)
    requires
        if from_front_first {
            yields_least(remaining, None, then)
        } else {
            yields_greatest(remaining, None, then)
        },
        if from_front_next {
            yields_least(then, out, rest)
        } else {
            yields_greatest(then, out, rest)
        },
    ensures
        out is None,
        rest == then,
{
    if out is Some {
        assert(then.dom().contains(out->Some_0.rank()));
    }
}

/// Putting an element in a second time finds it there and changes neither
/// what the set holds nor how much.
pub proof fn lemma_insert_idempotent<T: Ranked>(before: Map<int, T>, v: T)
    requires
        before.dom().finite(),
    ensures
        ({
            let once = before.insert(v.rank(), v);
            let twice = once.insert(v.rank(), v);
            &&& once.dom().contains(v.rank())
            &&& twice == once
            &&& twice.len() == once.len()
        }),
{
    let once = before.insert(v.rank(), v);
    assert(once.insert(v.rank(), v) =~= once);
}

/// A value put under a key that holds one takes its place: the value that
/// was there is what the map finds before, the new one what it finds after.
pub proof fn lemma_replace<K: Ranked, V: Replicate>(
    before: Map<int, Pair<K, V>>,
    key: K,
    first: V,
    second: V,
)
    ensures
        ({
            let once = before.insert(key.rank(), Pair { key, value: first });
            let twice = once.insert(key.rank(), Pair { key, value: second });
            &&& value_of(once.get(key.rank())) == Some(first)
            &&& twice.dom().contains(key.rank())
            &&& twice[key.rank()].value == second
            &&& twice.dom() == once.dom()
        }),
{
    let once = before.insert(key.rank(), Pair { key, value: first });
    let twice = once.insert(key.rank(), Pair { key, value: second });
    assert(twice.dom() =~= once.dom());
}

/// An element is in what the set holds after it was put in, is not after it
/// was taken out, and neither changes whether another rank is held.
pub proof fn lemma_membership<T: Ranked>(before: Map<int, T>, v: T, other: int)
    requires
        other != v.rank(),
    ensures
        before.insert(v.rank(), v).dom().contains(v.rank()),
        !before.remove(v.rank()).dom().contains(v.rank()),
        before.insert(v.rank(), v).dom().contains(other) == before.dom().contains(other),
        before.remove(v.rank()).dom().contains(other) == before.dom().contains(other),
{
}

/// A replica that has followed one operation and then follows the next has
/// followed both: the batches of two operations, joined, take it from the
/// first shape to the last.
pub proof fn lemma_replay_chain<T: Ranked>(
    shape0: Map<int, Seq<T>>,
    first: Seq<ChangeEvent<T>>,
    shape1: Map<int, Seq<T>>,
    second: Seq<ChangeEvent<T>>,
    shape2: Map<int, Seq<T>>,
)
    requires
        shape1 == replay(shape0, first),
        shape2 == replay(shape1, second),
    ensures
        shape2 == replay(shape0, first + second),
{
    lemma_replay_concat(shape0, first, second);
}

/// A replica that has followed every batch since the set had its shape
/// holds, node by node, what the set holds.
pub proof fn lemma_replica_follows<T: Ranked>(
    set: BTreeSet<T>,
    replica: Map<int, Seq<T>>,
    events: Seq<ChangeEvent<T>>,
)
    requires
        set.wf(),
        set.shape() == replay(replica, events),
    ensures
        flattened(replay(replica, events)) == set@,
{
    set.lemma_shape_flattened();
}

} // verus!
