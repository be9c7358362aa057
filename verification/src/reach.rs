//! What a layer search is certain to find, and what follows for queries.

use vstd::prelude::*;
use vstd::set_lib::{lemma_int_range, lemma_len_subset, set_int_range};
use crate::distance::metric;
use crate::heap::{enqueued, lemma_enqueued, rank, NodeHeapItem};
use crate::hnsw::{GraphView, NodePtr};
use crate::search::{lemma_distinct_below, Search};

verus! {

/// Whether node `x` is among `items`.
pub open spec fn holds(items: Seq<NodeHeapItem>, x: usize) -> bool {
    exists|i: int| 0 <= i < items.len() && (#[trigger] items[i]).node == x
}

/// What a queue holds it still holds after an item is put in its place, and it
/// then holds that item.
pub proof fn lemma_holds_enqueued(s: Seq<NodeHeapItem>, e: NodeHeapItem, x: usize)
    requires
        crate::heap::sorted(s),
    ensures
        holds(enqueued(s, e), e.node),
        holds(s, x) ==> holds(enqueued(s, e), x),
{
    lemma_enqueued(s, e);
    let t = enqueued(s, e);
    let r = rank(s, e);
    assert(t[r].node == e.node);
    if holds(s, x) {
        let i = choose|i: int| 0 <= i < s.len() && (#[trigger] s[i]).node == x;
        if i < r {
            assert(t[i] == s[i]);
        } else {
            assert(t[i + 1] == s[i]);
        }
    }
}

impl GraphView {
    /// Whether `b` is a neighbour of `a` on `layer`.
    pub open spec fn linked(self, a: usize, b: usize, layer: usize) -> bool {
        exists|j: int|
            0 <= j < self.friends(a as int, layer as int).len() && (#[trigger] self.friends(
                a as int,
                layer as int,
            )[j]).target() == b
    }

    /// Whether `path` leads from neighbour to neighbour on `layer`.
    pub open spec fn is_path(self, path: Seq<usize>, layer: usize) -> bool {
        &&& path.len() >= 1
        &&& forall|i: int|
            0 <= i < path.len() - 1 ==> self.linked(#[trigger] path[i], path[i + 1], layer)
    }

    /// Whether a path on `layer` leads from `from` to `to`.
    pub open spec fn reaches(self, from: usize, to: usize, layer: usize) -> bool {
        exists|path: Seq<usize>|
            #[trigger] self.is_path(path, layer) && path[0] == from && path.last() == to
    }

    /// Whether every neighbour on `layer` of every node among `found` is among
    /// `found`.
    pub open spec fn closed_under_neighbors(self, found: Seq<NodeHeapItem>, layer: usize) -> bool {
        forall|i: int, b: usize|
            0 <= i < found.len() && #[trigger] self.linked(found[i].node, b, layer) ==> holds(
                found,
                b,
            )
    }

    /// Whether every neighbour of `x` on `layer` is among `visited`.
    pub open spec fn neighbors_in(self, visited: Seq<usize>, x: usize, layer: usize) -> bool {
        forall|b: usize| #[trigger] self.linked(x, b, layer) ==> visited.contains(b)
    }

    /// While the results are not full, nothing seen is lost: every node seen is
    /// a result, and it is still to be expanded, or is the node `c` under
    /// expansion, or has had all its neighbours seen.
    pub open spec fn exhaustive(
        self,
        st: Search,
        count: usize,
        layer: usize,
        c: Option<usize>,
    ) -> bool {
        st.results.len() < count ==> forall|x: usize| #[trigger]
            st.visited.contains(x) ==> holds(st.results, x) && (c == Some(x) || holds(
                st.frontier,
                x,
            ) || self.neighbors_in(st.visited, x, layer))
    }

    /// Looking at one neighbour loses nothing seen while the results are not
    /// full, and the neighbour is seen afterwards.
    pub proof fn lemma_visit_exhaustive<F: Fn(&[u64], &[u64]) -> u64>(
        self,
        dist: &F,
        q: Seq<u64>,
        st: Search,
        e: usize,
        count: usize,
        layer: usize,
        c: Option<usize>,
    )
        requires
            self.search_inv(dist, q, st, count, layer),
            self.exhaustive(st, count, layer, c),
            self.on_layer(e as int, layer as int),
        ensures
            self.exhaustive(self.visit(dist, q, st, e, count), count, layer, c),
            self.visit(dist, q, st, e, count).results.len() < count ==> st.results.len() < count,
            self.visit(dist, q, st, e, count).visited.contains(e),
            forall|x: usize|
                st.visited.contains(x) ==> #[trigger] self.visit(
                    dist,
                    q,
                    st,
                    e,
                    count,
                ).visited.contains(x),
    {
        let next = self.visit(dist, q, st, e, count);
        if !st.visited.contains(e) {
            let it = self.item(dist, q, e);
            let visited = st.visited.push(e);
            assert(next.visited == visited);
            assert(visited[visited.len() - 1] == e);
            assert forall|x: usize| st.visited.contains(x) implies #[trigger] visited.contains(
                x,
            ) by {
                let i = choose|i: int| 0 <= i < st.visited.len() && st.visited[i] == x;
                assert(visited[i] == x);
            }
            if it.key() < st.results.last().key() || st.results.len() < count {
                lemma_enqueued(st.results, it);
                if next.results.len() < count {
                    assert(next.results == enqueued(st.results, it));
                    assert(next.frontier == enqueued(st.frontier, it));
                    assert forall|x: usize| #[trigger] visited.contains(x) implies holds(
                        next.results,
                        x,
                    ) && (c == Some(x) || holds(next.frontier, x) || self.neighbors_in(
                        visited,
                        x,
                        layer,
                    )) by {
                        lemma_holds_enqueued(st.results, it, x);
                        lemma_holds_enqueued(st.frontier, it, x);
                        let i = choose|i: int| 0 <= i < visited.len() && visited[i] == x;
                        if i < st.visited.len() {
                            assert(st.visited[i] == x);
                            assert(st.visited.contains(x));
                        }
                    }
                }
            } else {
                assert(next.results.len() >= count);
            }
        }
    }

    /// Looking at a list of neighbours loses nothing seen while the results
    /// are not full, and all of them are seen afterwards.
    pub proof fn lemma_expand_exhaustive<F: Fn(&[u64], &[u64]) -> u64>(
        self,
        dist: &F,
        q: Seq<u64>,
        st: Search,
        friends: Seq<NodePtr>,
        j: int,
        count: usize,
        layer: usize,
        c: Option<usize>,
    )
        requires
            self.search_inv(dist, q, st, count, layer),
            self.exhaustive(st, count, layer, c),
            self.list_on_layer(friends, layer as int),
            0 <= j,
        ensures
            self.exhaustive(self.expand(dist, q, st, friends, j, count), count, layer, c),
            self.expand(dist, q, st, friends, j, count).results.len() < count ==> st.results.len()
                < count,
            forall|x: usize|
                st.visited.contains(x) ==> #[trigger] self.expand(
                    dist,
                    q,
                    st,
                    friends,
                    j,
                    count,
                ).visited.contains(x),
            forall|k: int|
                j <= k < friends.len() ==> self.expand(
                    dist,
                    q,
                    st,
                    friends,
                    j,
                    count,
                ).visited.contains((#[trigger] friends[k]).target()),
        decreases friends.len() - j,
    {
        if j < friends.len() {
            let e = friends[j].target();
            let next = self.visit(dist, q, st, e, count);
            self.lemma_visit(dist, q, st, e, count, layer);
            self.lemma_visit_exhaustive(dist, q, st, e, count, layer, c);
            self.lemma_expand_exhaustive(dist, q, next, friends, j + 1, count, layer, c);
            let last = self.expand(dist, q, st, friends, j, count);
            assert(last == self.expand(dist, q, next, friends, j + 1, count));
            assert forall|k: int| j <= k < friends.len() implies last.visited.contains(
                (#[trigger] friends[k]).target(),
            ) by {
                if k == j {
                    assert(next.visited.contains(e));
                }
            }
            assert forall|x: usize| st.visited.contains(x) implies #[trigger] last.visited.contains(
                x,
            ) by {
                assert(next.visited.contains(x));
            }
        }
    }

    /// A search that ends with fewer than `count` nodes has found the node
    /// `ep`, which it had seen, and every neighbour of every node it found.
    pub proof fn lemma_search_from_closed<F: Fn(&[u64], &[u64]) -> u64>(
        self,
        dist: &F,
        q: Seq<u64>,
        st: Search,
        count: usize,
        layer: usize,
        ep: usize,
    )
        requires
            self.wf(),
            self.search_inv(dist, q, st, count, layer),
            self.exhaustive(st, count, layer, None),
            st.visited.contains(ep),
        ensures
            self.found_ok(dist, q, self.search_from(dist, q, st, count, layer), count, layer),
            self.search_from(dist, q, st, count, layer).len() < count ==> holds(
                self.search_from(dist, q, st, count, layer),
                ep,
            ) && self.closed_under_neighbors(self.search_from(dist, q, st, count, layer), layer),
        decreases 2 * self.nodes.len() - st.slack(),
    {
        let found = self.search_from(dist, q, st, count, layer);
        if st.frontier.len() == 0 {
            if found.len() < count {
                assert forall|i: int, b: usize|
                    0 <= i < found.len() && #[trigger] self.linked(
                        found[i].node,
                        b,
                        layer,
                    ) implies holds(found, b) by {
                    let x = found[i].node;
                    assert(st.visited.contains(x));
                    assert(!holds(st.frontier, x));
                    assert(self.neighbors_in(st.visited, x, layer));
                    assert(st.visited.contains(b));
                }
            }
        } else if st.frontier[0].key() > st.results.last().key() && st.results.len() == count {
        } else {
            let c = st.frontier[0].node;
            let popped = Search {
                visited: st.visited,
                frontier: st.frontier.remove(0),
                results: st.results,
            };
            let friends = self.friends(c as int, layer as int);
            self.lemma_popped(dist, q, st, count, layer);
            assert(self.exhaustive(popped, count, layer, Some(c))) by {
                if popped.results.len() < count {
                    assert forall|x: usize| #[trigger] popped.visited.contains(x) implies holds(
                        popped.results,
                        x,
                    ) && (Some(c) == Some(x) || holds(popped.frontier, x) || self.neighbors_in(
                        popped.visited,
                        x,
                        layer,
                    )) by {
                        if x != c && holds(st.frontier, x) {
                            let i = choose|i: int|
                                0 <= i < st.frontier.len() && (#[trigger] st.frontier[i]).node == x;
                            assert(popped.frontier[i - 1] == st.frontier[i]);
                        }
                    }
                }
            }
            self.lemma_expand(dist, q, popped, friends, 0, count, layer);
            self.lemma_expand_exhaustive(dist, q, popped, friends, 0, count, layer, Some(c));
            let next = self.expand(dist, q, popped, friends, 0, count);
            assert(self.exhaustive(next, count, layer, None)) by {
                if next.results.len() < count {
                    assert(self.neighbors_in(next.visited, c, layer)) by {
                        assert forall|b: usize| #[trigger] self.linked(
                            c,
                            b,
                            layer,
                        ) implies next.visited.contains(b) by {
                            let j = choose|j: int|
                                0 <= j < friends.len() && (#[trigger] friends[j]).target() == b;
                            assert(next.visited.contains(friends[j].target()));
                        }
                    }
                }
            }
            assert(next.visited.contains(ep));
            self.lemma_search_from_closed(dist, q, next, count, layer, ep);
        }
    }

    /// A search of a layer finds nodes of that layer in order, no more than
    /// asked for; and if it finds fewer, it has found the node it started at
    /// and every neighbour of every node it found.
    pub proof fn lemma_search_layer<F: Fn(&[u64], &[u64]) -> u64>(
        self,
        dist: &F,
        q: Seq<u64>,
        ep: usize,
        count: usize,
        layer: usize,
    )
        requires
            self.wf(),
            self.on_layer(ep as int, layer as int),
        ensures
            self.found_ok(dist, q, self.search_layer(dist, q, ep, count, layer), count, layer),
            self.search_layer(dist, q, ep, count, layer).len() < count ==> holds(
                self.search_layer(dist, q, ep, count, layer),
                ep,
            ) && self.closed_under_neighbors(self.search_layer(dist, q, ep, count, layer), layer),
    {
        let st = self.search_start(dist, q, ep);
        assert(st.visited[0] == ep);
        assert(st.frontier[0].node == ep);
        assert(st.results[0].node == ep);
        assert forall|x: usize| #[trigger] st.visited.contains(x) implies x == ep by {}
        self.lemma_search_from_closed(dist, q, st, count, layer, ep);
    }

    /// A set of nodes that is closed under neighbours holds every node that
    /// can be reached from one of its own.
    pub proof fn lemma_closed_reaches(self, found: Seq<NodeHeapItem>, layer: usize, path: Seq<usize>)
        requires
            self.closed_under_neighbors(found, layer),
            self.is_path(path, layer),
            holds(found, path[0]),
        ensures
            holds(found, path.last()),
        decreases path.len(),
    {
        if path.len() > 1 {
            let front = path.drop_last();
            assert forall|i: int| 0 <= i < front.len() - 1 implies self.linked(
                #[trigger] front[i],
                front[i + 1],
                layer,
            ) by {
                assert(self.linked(path[i], path[i + 1], layer));
            }
            self.lemma_closed_reaches(found, layer, front);
            let a = front.last();
            assert(a == path[path.len() - 2]);
            assert(self.linked(path[path.len() - 2], path[path.len() - 2 + 1], layer));
            let i = choose|i: int| 0 <= i < found.len() && (#[trigger] found[i]).node == a;
            assert(self.linked(found[i].node, path.last(), layer));
        }
    }

    /// A greedy descent ends on the lowest layer it went through.
    pub proof fn lemma_descend<F: Fn(&[u64], &[u64]) -> u64>(
        self,
        dist: &F,
        q: Seq<u64>,
        ep: usize,
        from: int,
        to: int,
    )
        requires
            self.wf(),
            0 <= from,
            0 <= to,
            self.on_layer(ep as int, from),
        ensures
            from >= to ==> self.on_layer(self.descend(dist, q, ep, from, to) as int, to),
            from < to ==> self.descend(dist, q, ep, from, to) == ep,
            to > 0 ==> self.descend(dist, q, ep, from, to - 1) == (if from >= to {
                self.descend(dist, q, self.descend(dist, q, ep, from, to), to - 1, to - 1)
            } else {
                self.descend(dist, q, ep, from, to - 1)
            }),
        decreases from - to + 1,
    {
        if from >= to {
            self.lemma_search_layer(dist, q, ep, 1, from as usize);
            let next = self.search_layer(dist, q, ep, 1, from as usize)[0].node;
            if from > 0 {
                self.lemma_descend(dist, q, next, from - 1, to);
            }
        }
    }

    /// A query for one neighbour with a candidate list of one returns the
    /// single node at which the greedy descent from the entrance through every
    /// layer ends, with its distance.
    pub proof fn lemma_single_answer<F: Fn(&[u64], &[u64]) -> u64>(self, dist: &F, q: Seq<u64>)
        requires
            self.wf(),
        ensures
            self.knn(dist, q, 1, 1) == seq![
                (
                    self.descend(dist, q, self.entrence_point.target(), self.layer_count - 1, 0),
                    metric(
                        dist,
                        q,
                        self.nodes[self.descend(
                            dist,
                            q,
                            self.entrence_point.target(),
                            self.layer_count - 1,
                            0,
                        ) as int].vector,
                    ),
                ),
            ],
    {
        let e = self.entrence_point.target();
        let top = self.layer_count - 1;
        self.lemma_descend(dist, q, e, top, 1);
        let ep = self.descend(dist, q, e, top, 1);
        assert(self.node_wf(e as int));
        assert(self.on_layer(ep as int, 0));
        self.lemma_search_layer(dist, q, ep, 1, 0);
        let found = self.search_layer(dist, q, ep, 1, 0);
        assert(found.len() == 1);
        assert(found[0] == self.item(dist, q, found[0].node));
        assert(self.descend(dist, q, e, top, 0) == found[0].node) by {
            if top >= 1 {
                assert(self.descend(dist, q, ep, 0, 0) == self.descend(
                    dist,
                    q,
                    found[0].node,
                    -1,
                    0,
                ));
            } else {
                assert(ep == e);
                assert(self.descend(dist, q, e, 0, 0) == self.descend(dist, q, found[0].node, -1, 0));
            }
        }
        assert(self.knn(dist, q, 1, 1) =~= seq![(found[0].node, found[0].distance)]);
    }

    /// Whether every node can be reached on the base layer from the node at
    /// which the descent from the entrance towards `q` enters that layer.
    pub open spec fn base_connected<F: Fn(&[u64], &[u64]) -> u64>(
        self,
        dist: &F,
        q: Seq<u64>,
    ) -> bool {
        forall|x: usize|
            x < self.nodes.len() ==> #[trigger] self.reaches(
                self.descend(dist, q, self.entrence_point.target(), self.layer_count - 1, 1),
                x,
                0,
            )
    }

    /// A query for more neighbours than the graph has nodes returns every
    /// node, provided that every node can be reached on the base layer from the
    /// node at which the descent from the entrance ends.
    pub proof fn lemma_small_graph<F: Fn(&[u64], &[u64]) -> u64>(
        self,
        dist: &F,
        q: Seq<u64>,
        k: usize,
        ef: usize,
    )
        requires
            self.wf(),
            self.nodes.len() <= usize::MAX,
            self.nodes.len() < k <= ef,
            self.base_connected(dist, q),
        ensures
            self.knn(dist, q, k, ef).len() == self.nodes.len(),
    {
        let e = self.entrence_point.target();
        let top = self.layer_count - 1;
        self.lemma_descend(dist, q, e, top, 1);
        let ep = self.descend(dist, q, e, top, 1);
        assert(self.node_wf(e as int));
        assert(self.on_layer(ep as int, 0));
        self.lemma_search_layer(dist, q, ep, ef, 0);
        let found = self.search_layer(dist, q, ep, ef, 0);
        let nodes = Seq::new(found.len(), |i: int| found[i].node);
        assert(nodes.no_duplicates());
        lemma_distinct_below(nodes, self.nodes.len());
        assert(found.len() < ef);
        assert forall|x: usize| x < self.nodes.len() implies nodes.contains(x) by {
            assert(self.reaches(ep, x, 0));
            let path = choose|path: Seq<usize>|
                #[trigger] self.is_path(path, 0) && path[0] == ep && path.last() == x;
            self.lemma_closed_reaches(found, 0, path);
            let i = choose|i: int| 0 <= i < found.len() && (#[trigger] found[i]).node == x;
            assert(nodes[i] == x);
        }
        lemma_covering(nodes, self.nodes.len());
    }
}

/// A sequence in which every number below `n` occurs has at least `n` entries.
pub proof fn lemma_covering(s: Seq<usize>, n: nat)
    requires
        n <= usize::MAX,
        forall|x: usize| x < n ==> s.contains(x),
    ensures
        s.len() >= n,
{
    let t = Seq::new(s.len(), |i: int| s[i] as int);
    lemma_int_range(0, n as int);
    t.lemma_cardinality_of_set();
    assert(set_int_range(0, n as int).subset_of(t.to_set())) by {
        assert forall|x: int| set_int_range(0, n as int).contains(x) implies t.to_set().contains(
            x,
        ) by {
            assert(s.contains(x as usize));
            let i = choose|i: int| 0 <= i < s.len() && s[i] == x as usize;
            assert(t[i] == x);
        }
    }
    lemma_len_subset(set_int_range(0, n as int), t.to_set());
}

} // verus!
