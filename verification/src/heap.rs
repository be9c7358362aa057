//! Priority queues of nodes keyed by their distance to a query, kept as
//! vectors in ascending order.

use vstd::prelude::*;
use vstd::seq_lib::{to_multiset_build, to_multiset_remove};
use crate::distance::{distance_key, spec_distance_key};

verus! {

/// A node together with its distance to the query at hand.
#[derive(Clone, Copy, Debug, PartialEq, Eq, Structural)]
pub struct NodeHeapItem {
    /// The distance, as a 64-bit IEEE-754 pattern.
    pub distance: u64,
    /// The index of the node.
    pub node: usize,
}

impl NodeHeapItem {
    /// The key by which the item is ordered.
    pub open spec fn key(self) -> u64 {
        spec_distance_key(self.distance)
    }

    /// The strict order of the queues: by distance, and among equal distances
    /// by node index.
    pub open spec fn precedes(self, other: NodeHeapItem) -> bool {
        self.key() < other.key() || (self.key() == other.key() && self.node < other.node)
    }

    /// Whether `self` comes strictly before `other` in the order of the queues.
    pub fn comes_before(&self, other: &NodeHeapItem) -> (r: bool)
        ensures
            r == self.precedes(*other),
    {
        let a: u64 = distance_key(self.distance);
        let b: u64 = distance_key(other.distance);
        a < b || (a == b && self.node < other.node)
    }
}

/// A queue is in order when no item precedes one that stands before it.
pub open spec fn sorted(s: Seq<NodeHeapItem>) -> bool {
    forall|i: int, j: int| 0 <= i < j < s.len() ==> !(#[trigger] s[j]).precedes(#[trigger] s[i])
}

/// The place of a new item in an ordered queue: behind every item that it does
/// not precede.
pub open spec fn rank(s: Seq<NodeHeapItem>, e: NodeHeapItem) -> int
    decreases s.len(),
{
    if s.len() == 0 {
        0
    } else if e.precedes(s.last()) {
        rank(s.drop_last(), e)
    } else {
        s.len() as int
    }
}

/// The queue with `e` put in its place.
pub open spec fn enqueued(s: Seq<NodeHeapItem>, e: NodeHeapItem) -> Seq<NodeHeapItem> {
    s.insert(rank(s, e), e)
}

/// The items of `s` in order: each put in its place, one after the other.
pub open spec fn ordered(s: Seq<NodeHeapItem>) -> Seq<NodeHeapItem>
    decreases s.len(),
{
    if s.len() == 0 {
        s
    } else {
        enqueued(ordered(s.drop_last()), s.last())
    }
}

/// The rank of an item lies inside the queue, the item precedes everything from
/// its rank on, and it does not precede the item just before its rank.
pub proof fn lemma_rank(s: Seq<NodeHeapItem>, e: NodeHeapItem)
    ensures
        0 <= rank(s, e) <= s.len(),
        forall|j: int| rank(s, e) <= j < s.len() ==> e.precedes(#[trigger] s[j]),
        rank(s, e) > 0 ==> !e.precedes(s[rank(s, e) - 1]),
    decreases s.len(),
{
    if s.len() > 0 && e.precedes(s.last()) {
        let t = s.drop_last();
        lemma_rank(t, e);
        assert forall|j: int| rank(s, e) <= j < s.len() implies e.precedes(#[trigger] s[j]) by {
            if j < t.len() {
                assert(e.precedes(t[j]));
            }
        }
        if rank(s, e) > 0 {
            assert(t[rank(t, e) - 1] == s[rank(s, e) - 1]);
        }
    }
}

/// Putting an item in its place keeps a queue in order, adds one to its length
/// and keeps every item it had.
pub proof fn lemma_enqueued(s: Seq<NodeHeapItem>, e: NodeHeapItem)
    requires
        sorted(s),
    ensures
        sorted(enqueued(s, e)),
        0 <= rank(s, e) <= s.len(),
        enqueued(s, e).len() == s.len() + 1,
        enqueued(s, e)[rank(s, e)] == e,
        forall|i: int| 0 <= i < rank(s, e) ==> #[trigger] enqueued(s, e)[i] == s[i],
        forall|i: int| rank(s, e) < i <= s.len() ==> #[trigger] enqueued(s, e)[i] == s[i - 1],
        enqueued(s, e).to_multiset() == s.to_multiset().insert(e),
{
    lemma_rank(s, e);
    let r = rank(s, e);
    let t = enqueued(s, e);
    assert(t.to_multiset() =~= s.to_multiset().insert(e)) by {
        assert(t.remove(r) =~= s);
        assert(t[r] == e);
        assert(t.contains(e));
        to_multiset_remove(t, r);
        t.to_multiset_ensures();
        assert(t.to_multiset().count(e) > 0);
        assert(t.to_multiset().remove(e).insert(e) =~= t.to_multiset());
    }
    assert forall|i: int, j: int| 0 <= i < j < t.len() implies !(#[trigger] t[j]).precedes(
        #[trigger] t[i],
    ) by {
        if j == r {
            // t[i] = s[i] with i < r: s[i] does not come after s[r - 1], which does not come after e
            assert(!s[r - 1].precedes(s[i]) || i == r - 1);
        } else if i == r {
            assert(e.precedes(s[j - 1]));
        } else if i < r && j > r {
            assert(!s[j - 1].precedes(s[i]));
        } else if i < r {
            assert(!s[j].precedes(s[i]));
        } else {
            assert(!s[j - 1].precedes(s[i - 1]));
        }
    }
}

/// Ordering a sequence gives an ordered queue of the same items, each as often
/// as it was there.
pub proof fn lemma_ordered(s: Seq<NodeHeapItem>)
    ensures
        sorted(ordered(s)),
        ordered(s).len() == s.len(),
        ordered(s).to_multiset() == s.to_multiset(),
        forall|i: int| 0 <= i < s.len() ==> s.contains(#[trigger] ordered(s)[i]),
        forall|i: int| 0 <= i < s.len() ==> ordered(s).contains(#[trigger] s[i]),
    decreases s.len(),
{
    if s.len() > 0 {
        let t = ordered(s.drop_last());
        let e = s.last();
        lemma_ordered(s.drop_last());
        lemma_enqueued(t, e);
        let r = rank(t, e);
        let o = ordered(s);
        assert(o.to_multiset() =~= s.to_multiset()) by {
            assert(s.drop_last().push(e) =~= s);
            to_multiset_build(s.drop_last(), e);
        }
        assert forall|i: int| 0 <= i < s.len() implies s.contains(#[trigger] o[i]) by {
            if i < r {
                assert(o[i] == t[i]);
                assert(s.drop_last().contains(t[i]));
            } else if i > r {
                assert(o[i] == t[i - 1]);
                assert(s.drop_last().contains(t[i - 1]));
            } else {
                assert(s[s.len() - 1] == e);
            }
            let x = o[i];
            if x != e {
                let k = choose|k: int| 0 <= k < s.drop_last().len() && s.drop_last()[k] == x;
                assert(s[k] == x);
            }
        }
        assert forall|i: int| 0 <= i < s.len() implies o.contains(#[trigger] s[i]) by {
            if i == s.len() - 1 {
                assert(o[r] == s[i]);
            } else {
                assert(s.drop_last()[i] == s[i]);
                assert(t.contains(s.drop_last()[i]));
                let k = choose|k: int| 0 <= k < t.len() && t[k] == s[i];
                if k < r {
                    assert(o[k] == t[k]);
                } else {
                    assert(o[k + 1] == t[k]);
                }
            }
        }
    }
}

/// Whether no node occurs twice among `s`.
pub open spec fn distinct_nodes(s: Seq<NodeHeapItem>) -> bool {
    forall|i: int, j: int|
        0 <= i < j < s.len() ==> (#[trigger] s[i]).node != (#[trigger] s[j]).node
}

/// Ordering a sequence of distinct nodes gives distinct nodes.
pub proof fn lemma_ordered_distinct(s: Seq<NodeHeapItem>)
    requires
        distinct_nodes(s),
    ensures
        distinct_nodes(ordered(s)),
    decreases s.len(),
{
    if s.len() > 0 {
        let front = s.drop_last();
        let t = ordered(front);
        let e = s.last();
        assert forall|i: int, j: int| 0 <= i < j < front.len() implies (#[trigger] front[i]).node != (
        #[trigger] front[j]).node by {
            assert(front[i] == s[i]);
            assert(front[j] == s[j]);
        }
        lemma_ordered_distinct(front);
        lemma_ordered(front);
        lemma_enqueued(t, e);
        let r = rank(t, e);
        let o = ordered(s);
        assert forall|i: int| 0 <= i < t.len() implies (#[trigger] t[i]).node != e.node by {
            assert(front.contains(t[i]));
            let k = choose|k: int| 0 <= k < front.len() && front[k] == t[i];
            assert(s[k] == t[i]);
            assert(s[s.len() - 1] == e);
        }
        assert forall|i: int, j: int| 0 <= i < j < o.len() implies (#[trigger] o[i]).node != (
        #[trigger] o[j]).node by {
            let a = if i < r {
                i
            } else {
                i - 1
            };
            let b = if j < r {
                j
            } else {
                j - 1
            };
            if i != r {
                assert(o[i] == t[a]);
            }
            if j != r {
                assert(o[j] == t[b]);
            }
        }
    }
}

/// Puts `e` in its place in the ordered queue `v`.
pub fn enqueue(v: &mut Vec<NodeHeapItem>, e: NodeHeapItem)
    ensures
        final(v)@ == enqueued(old(v)@, e),
{
    let mut i: usize = v.len();
    assert(v@.take(i as int) =~= v@);
    while i > 0 && e.comes_before(&v[i - 1])
        invariant
            i <= v.len(),
            rank(v@, e) == rank(v@.take(i as int), e),
        decreases i,
    {
        proof {
            let s = v@.take(i as int);
            assert(s.last() == v@[i - 1]);
            assert(s.drop_last() =~= v@.take(i - 1));
        }
        i = i - 1;
    }
    proof {
        let s = v@.take(i as int);
        if i > 0 {
            assert(s.last() == v@[i - 1]);
        }
        assert(v@.take(v.len() as int) =~= v@);
    }
    v.insert(i, e);
}

} // verus!
