//! The search of one layer of the graph, and the k-nearest-neighbour query
//! built on it.

use vstd::prelude::*;
use vstd::set_lib::{lemma_int_range, lemma_len_subset, set_int_range};
use crate::distance::{distance_key, is_metric, measure, metric, spec_distance_key};
use crate::heap::{enqueue, enqueued, lemma_enqueued, rank, sorted, NodeHeapItem};
use crate::hnsw::{Graph, GraphError, GraphView, NodePtr};
use crate::reach::holds;

verus! {

/// Whether `n` occurs in `v`.
pub fn contains_rc(v: &Vec<usize>, n: usize) -> (r: bool)
    ensures
        r == v@.contains(n),
{
    let mut i: usize = 0;
    while i < v.len()
        invariant
            i <= v.len(),
            forall|j: int| 0 <= j < i ==> v@[j] != n,
        decreases v.len() - i,
    {
        if v[i] == n {
            return true;
        }
        i = i + 1;
    }
    false
}

/// The working sets of a layer search.
pub struct Search {
    /// The nodes seen so far.
    pub visited: Seq<usize>,
    /// The nodes still to expand, closest first.
    pub frontier: Seq<NodeHeapItem>,
    /// The best nodes found so far, closest first.
    pub results: Seq<NodeHeapItem>,
}

impl Search {
    /// Twice the number of nodes seen, less the number still to expand: a
    /// quantity that grows with every node taken from the frontier.
    pub open spec fn slack(self) -> int {
        2 * self.visited.len() - self.frontier.len()
    }
}

impl GraphView {
    /// The working sets with which the search of a layer starts at `ep`.
    pub open spec fn search_start<F: Fn(&[u64], &[u64]) -> u64>(
        self,
        dist: &F,
        q: Seq<u64>,
        ep: usize,
    ) -> Search {
        Search {
            visited: seq![ep],
            frontier: seq![self.item(dist, q, ep)],
            results: seq![self.item(dist, q, ep)],
        }
    }

    /// The working sets after looking at the neighbour `e` of the node being
    /// expanded. A node seen before changes nothing. A new one is marked as seen;
    /// it joins the frontier and the results if it is closer than the farthest
    /// result or the results are not full, and the farthest result then leaves
    /// if there are more than `count`.
    pub open spec fn visit<F: Fn(&[u64], &[u64]) -> u64>(
        self,
        dist: &F,
        q: Seq<u64>,
        st: Search,
        e: usize,
        count: usize,
    ) -> Search {
        if st.visited.contains(e) {
            st
        } else {
            let it = self.item(dist, q, e);
            if it.key() < st.results.last().key() || st.results.len() < count {
                let grown = enqueued(st.results, it);
                Search {
                    visited: st.visited.push(e),
                    frontier: enqueued(st.frontier, it),
                    results: if grown.len() > count {
                        grown.drop_last()
                    } else {
                        grown
                    },
                }
            } else {
                Search { visited: st.visited.push(e), frontier: st.frontier, results: st.results }
            }
        }
    }

    /// The working sets after looking at the neighbours `friends[j..]` in turn.
    pub open spec fn expand<F: Fn(&[u64], &[u64]) -> u64>(
        self,
        dist: &F,
        q: Seq<u64>,
        st: Search,
        friends: Seq<NodePtr>,
        j: int,
        count: usize,
    ) -> Search
        decreases friends.len() - j,
    {
        if 0 <= j < friends.len() {
            self.expand(
                dist,
                q,
                self.visit(dist, q, st, friends[j].target(), count),
                friends,
                j + 1,
                count,
            )
        } else {
            st
        }
    }

    /// What the working sets of a search on `layer` satisfy at every step: no
    /// node is seen twice, both queues are in order and hold only seen nodes of
    /// the layer with their true distances, and the results are distinct nodes,
    /// at least one and, from one up, at most `count`.
    pub open spec fn search_inv<F: Fn(&[u64], &[u64]) -> u64>(
        self,
        dist: &F,
        q: Seq<u64>,
        st: Search,
        count: usize,
        layer: usize,
    ) -> bool {
        &&& st.visited.no_duplicates()
        &&& st.visited.len() <= self.nodes.len()
        &&& forall|i: int|
            0 <= i < st.visited.len() ==> self.on_layer(#[trigger] st.visited[i] as int, layer as int)
        &&& sorted(st.frontier)
        &&& forall|i: int|
            0 <= i < st.frontier.len() ==> st.visited.contains((#[trigger] st.frontier[i]).node)
                && st.frontier[i] == self.item(dist, q, st.frontier[i].node)
        &&& self.found_ok(dist, q, st.results, count, layer)
        &&& forall|i: int|
            0 <= i < st.results.len() ==> st.visited.contains((#[trigger] st.results[i]).node)
    }

    /// What holds of the nodes that a search of `layer` found: they are in order
    /// of distance to `q`, distinct, take part in the layer, carry their true
    /// distances, and are at least one and, for a `count` of one or more, at
    /// most `count`.
    pub open spec fn found_ok<F: Fn(&[u64], &[u64]) -> u64>(
        self,
        dist: &F,
        q: Seq<u64>,
        found: Seq<NodeHeapItem>,
        count: usize,
        layer: usize,
    ) -> bool {
        &&& sorted(found)
        &&& 1 <= found.len()
        &&& found.len() <= count || found.len() == 1
        &&& forall|i: int|
            0 <= i < found.len() ==> self.on_layer((#[trigger] found[i]).node as int, layer as int)
                && found[i] == self.item(dist, q, found[i].node)
        &&& forall|i: int, j: int|
            0 <= i < j < found.len() ==> (#[trigger] found[i]).node != (#[trigger] found[j]).node
    }

    /// The nodes found on `layer` when the search goes on from the working sets
    /// `st`: while the frontier is not empty its closest node is taken; the
    /// search ends if that node is farther than the farthest of `count`
    /// results, and else looks at the node's neighbours.
    pub open spec fn search_from<F: Fn(&[u64], &[u64]) -> u64>(
        self,
        dist: &F,
        q: Seq<u64>,
        st: Search,
        count: usize,
        layer: usize,
    ) -> Seq<NodeHeapItem>
        decreases 2 * self.nodes.len() - st.slack(),
        when self.wf() && self.search_inv(dist, q, st, count, layer)
    {
        if st.frontier.len() == 0 {
            st.results
        } else if st.frontier[0].key() > st.results.last().key() && st.results.len() == count {
            st.results
        } else {
            let popped = Search {
                visited: st.visited,
                frontier: st.frontier.remove(0),
                results: st.results,
            };
            let friends = self.friends(st.frontier[0].node as int, layer as int);
            proof {
                self.lemma_popped(dist, q, st, count, layer);
                self.lemma_expand(dist, q, popped, friends, 0, count, layer);
            }
            self.search_from(dist, q, self.expand(dist, q, popped, friends, 0, count), count, layer)
        }
    }

    /// The `count` nodes of `layer` found closest to `q` by a search that starts
    /// at `ep`, closest first.
    pub open spec fn search_layer<F: Fn(&[u64], &[u64]) -> u64>(
        self,
        dist: &F,
        q: Seq<u64>,
        ep: usize,
        count: usize,
        layer: usize,
    ) -> Seq<NodeHeapItem> {
        self.search_from(dist, q, self.search_start(dist, q, ep), count, layer)
    }

    /// Taking the closest node from the frontier keeps the working sets in
    /// order, and the node's neighbours on the layer are nodes of that layer.
    pub proof fn lemma_popped<F: Fn(&[u64], &[u64]) -> u64>(
        self,
        dist: &F,
        q: Seq<u64>,
        st: Search,
        count: usize,
        layer: usize,
    )
        requires
            self.wf(),
            self.search_inv(dist, q, st, count, layer),
            st.frontier.len() > 0,
        ensures
            self.search_inv(
                dist,
                q,
                Search { visited: st.visited, frontier: st.frontier.remove(0), results: st.results },
                count,
                layer,
            ),
            self.on_layer(st.frontier[0].node as int, layer as int),
            self.list_on_layer(self.friends(st.frontier[0].node as int, layer as int), layer as int),
    {
        let rest = st.frontier.remove(0);
        assert forall|i: int, j: int| 0 <= i < j < rest.len() implies !(#[trigger] rest[j]).precedes(
            #[trigger] rest[i],
        ) by {
            assert(rest[i] == st.frontier[i + 1]);
            assert(rest[j] == st.frontier[j + 1]);
        }
        assert forall|i: int| 0 <= i < rest.len() implies st.visited.contains(
            (#[trigger] rest[i]).node,
        ) && rest[i] == self.item(dist, q, rest[i].node) by {
            assert(rest[i] == st.frontier[i + 1]);
        }
        let c = st.frontier[0].node;
        assert(st.visited.contains(c));
        assert(self.node_wf(c as int));
        assert(self.list_wf(c as int, layer as int));
    }

    /// Looking at one neighbour keeps the working sets in order and does not
    /// lower their slack.
    pub proof fn lemma_visit<F: Fn(&[u64], &[u64]) -> u64>(
        self,
        dist: &F,
        q: Seq<u64>,
        st: Search,
        e: usize,
        count: usize,
        layer: usize,
    )
        requires
            self.search_inv(dist, q, st, count, layer),
            self.on_layer(e as int, layer as int),
        ensures
            self.search_inv(dist, q, self.visit(dist, q, st, e, count), count, layer),
            self.visit(dist, q, st, e, count).slack() >= st.slack(),
    {
        if !st.visited.contains(e) {
            let it = self.item(dist, q, e);
            let next = self.visit(dist, q, st, e, count);
            let visited = st.visited.push(e);
            assert(next.visited == visited);
            assert(visited.no_duplicates());
            assert forall|i: int| 0 <= i < visited.len() implies self.on_layer(
                #[trigger] visited[i] as int,
                layer as int,
            ) by {
                if i < st.visited.len() {
                    assert(visited[i] == st.visited[i]);
                }
            }
            lemma_distinct_below(visited, self.nodes.len());
            assert forall|x: usize| st.visited.contains(x) implies visited.contains(x) by {
                let i = choose|i: int| 0 <= i < st.visited.len() && st.visited[i] == x;
                assert(visited[i] == x);
            }
            assert(visited[visited.len() - 1] == e);
            assert(visited.contains(e));
            if it.key() < st.results.last().key() || st.results.len() < count {
                lemma_enqueued(st.frontier, it);
                lemma_enqueued(st.results, it);
                let grown = enqueued(st.results, it);
                let r = rank(st.results, it);
                assert forall|i: int| 0 <= i < grown.len() implies visited.contains(
                    (#[trigger] grown[i]).node,
                ) && self.on_layer(grown[i].node as int, layer as int) && grown[i] == self.item(
                    dist,
                    q,
                    grown[i].node,
                ) by {
                    if i < r {
                        assert(grown[i] == st.results[i]);
                    } else if i > r {
                        assert(grown[i] == st.results[i - 1]);
                    }
                }
                assert forall|i: int, j: int| 0 <= i < j < grown.len() implies (
                #[trigger] grown[i]).node != (#[trigger] grown[j]).node by {
                    let a = if i < r {
                        i
                    } else {
                        i - 1
                    };
                    let b = if j < r {
                        j
                    } else {
                        j - 1
                    };
                    if i != r {
                        assert(grown[i] == st.results[a]);
                        assert(st.visited.contains(st.results[a].node));
                    }
                    if j != r {
                        assert(grown[j] == st.results[b]);
                        assert(st.visited.contains(st.results[b].node));
                    }
                }
                let f = enqueued(st.frontier, it);
                let rf = rank(st.frontier, it);
                assert forall|i: int| 0 <= i < f.len() implies visited.contains(
                    (#[trigger] f[i]).node,
                ) && f[i] == self.item(dist, q, f[i].node) by {
                    if i < rf {
                        assert(f[i] == st.frontier[i]);
                    } else if i > rf {
                        assert(f[i] == st.frontier[i - 1]);
                    }
                }
                if grown.len() > count {
                    let cut = grown.drop_last();
                    assert forall|i: int, j: int| 0 <= i < j < cut.len() implies !(
                    #[trigger] cut[j]).precedes(#[trigger] cut[i]) by {
                        assert(cut[i] == grown[i]);
                        assert(cut[j] == grown[j]);
                    }
                    assert forall|i: int| 0 <= i < cut.len() implies visited.contains(
                        (#[trigger] cut[i]).node,
                    ) && self.on_layer(cut[i].node as int, layer as int) && cut[i] == self.item(
                        dist,
                        q,
                        cut[i].node,
                    ) by {
                        assert(cut[i] == grown[i]);
                    }
                    assert forall|i: int, j: int| 0 <= i < j < cut.len() implies (
                    #[trigger] cut[i]).node != (#[trigger] cut[j]).node by {
                        assert(cut[i] == grown[i]);
                        assert(cut[j] == grown[j]);
                    }
                    assert(self.found_ok(dist, q, cut, count, layer));
                } else {
                    assert(self.found_ok(dist, q, grown, count, layer));
                }
            } else {
                assert forall|i: int| 0 <= i < st.frontier.len() implies visited.contains(
                    (#[trigger] st.frontier[i]).node,
                ) by {}
                assert forall|i: int| 0 <= i < st.results.len() implies visited.contains(
                    (#[trigger] st.results[i]).node,
                ) by {}
            }
        }
    }

    /// Looking at a list of neighbours keeps the working sets in order and does
    /// not lower their slack.
    pub proof fn lemma_expand<F: Fn(&[u64], &[u64]) -> u64>(
        self,
        dist: &F,
        q: Seq<u64>,
        st: Search,
        friends: Seq<NodePtr>,
        j: int,
        count: usize,
        layer: usize,
    )
        requires
            self.search_inv(dist, q, st, count, layer),
            self.list_on_layer(friends, layer as int),
            0 <= j,
        ensures
            self.search_inv(dist, q, self.expand(dist, q, st, friends, j, count), count, layer),
            self.expand(dist, q, st, friends, j, count).slack() >= st.slack(),
        decreases friends.len() - j,
    {
        if j < friends.len() {
            let e = friends[j].target();
            self.lemma_visit(dist, q, st, e, count, layer);
            self.lemma_expand(dist, q, self.visit(dist, q, st, e, count), friends, j + 1, count, layer);
        }
    }
}

/// A sequence of distinct numbers below `n` has at most `n` entries.
pub proof fn lemma_distinct_below(s: Seq<usize>, n: nat)
    requires
        s.no_duplicates(),
        forall|i: int| 0 <= i < s.len() ==> s[i] < n,
    ensures
        s.len() <= n,
{
    let t = Seq::new(s.len(), |i: int| s[i] as int);
    assert(t.no_duplicates());
    t.unique_seq_to_set();
    lemma_int_range(0, n as int);
    assert(t.to_set().subset_of(set_int_range(0, n as int))) by {
        assert forall|x: int| t.to_set().contains(x) implies set_int_range(0, n as int).contains(
            x,
        ) by {
            let i = choose|i: int| 0 <= i < t.len() && t[i] == x;
            assert(s[i] < n);
        }
    }
    lemma_len_subset(t.to_set(), set_int_range(0, n as int));
}

/// The working sets made of the three given sequences.
pub open spec fn working(
    visited: Seq<usize>,
    frontier: Seq<NodeHeapItem>,
    results: Seq<NodeHeapItem>,
) -> Search {
    Search { visited, frontier, results }
}

/// Finds the `count` nodes of `layer` closest to `q`, starting at the node
/// `ep`, which takes part in that layer. The nodes come closest first, each with
/// its distance. At least one node is returned, whatever `count` is. Where
/// fewer than `count` come back, they are all the nodes that can be reached
/// from `ep` on the layer.
pub fn search_layer<F: Fn(&[u64], &[u64]) -> u64>(
    g: &Graph,
    q: &[u64],
    ep: usize,
    count: usize,
    layer: usize,
    dist: &F,
) -> (found: Vec<NodeHeapItem>)
    requires
        g@.wf(),
        is_metric(dist),
        q@.len() == g@.dimension,
        g@.on_layer(ep as int, layer as int),
    ensures
        found@ == g@.search_layer(dist, q@, ep, count, layer),
        g@.found_ok(dist, q@, found@, count, layer),
        found@.len() < count ==> holds(found@, ep) && g@.closed_under_neighbors(found@, layer),
{
    assert(g@.node_wf(ep as int));
    let init = NodeHeapItem { distance: measure(dist, q, g.nodes[ep].vector.as_slice()), node: ep };
    let mut visited: Vec<usize> = Vec::new();
    visited.push(ep);
    let mut canidates: Vec<NodeHeapItem> = Vec::new();
    canidates.push(init);
    let mut found: Vec<NodeHeapItem> = Vec::new();
    found.push(init);
    let mut done = false;
    proof {
        g@.lemma_search_layer(dist, q@, ep, count, layer);
        assert(init == g@.item(dist, q@, ep));
        assert(visited@ =~= seq![ep]);
        assert(canidates@ =~= seq![init]);
        assert(found@ =~= seq![init]);
        assert(working(visited@, canidates@, found@) == g@.search_start(dist, q@, ep));
        assert(visited@[0] == ep);
    }
    while !done && canidates.len() > 0
        invariant
            g@.wf(),
            is_metric(dist),
            q@.len() == g@.dimension,
            g@.search_inv(dist, q@, working(visited@, canidates@, found@), count, layer),
            !done ==> g@.search_from(dist, q@, working(visited@, canidates@, found@), count, layer)
                == g@.search_layer(dist, q@, ep, count, layer),
            done ==> found@ == g@.search_layer(dist, q@, ep, count, layer),
        decreases 2 * g@.nodes.len() - working(visited@, canidates@, found@).slack(),
    {
        let ghost st = working(visited@, canidates@, found@);
        proof {
            g@.lemma_popped(dist, q@, st, count, layer);
        }
        let canidate = canidates.remove(0);
        let furthest = found[found.len() - 1];
        if distance_key(canidate.distance) > distance_key(furthest.distance) && found.len()
            == count {
            done = true;
        } else {
            proof {
                assert(canidate == st.frontier[0]);
                assert(g@.node_wf(canidate.node as int));
                assert(g@.nodes[canidate.node as int] == g.nodes@[canidate.node as int]@);
            }
            let friends = &g.nodes[canidate.node].friend_layers[layer];
            let ghost popped = working(visited@, canidates@, found@);
            let ghost fs = g@.friends(canidate.node as int, layer as int);
            assert(friends@ == fs);
            let mut j: usize = 0;
            while j < friends.len()
                invariant
                    j <= friends.len(),
                    friends@ == fs,
                    g@.list_on_layer(fs, layer as int),
                    is_metric(dist),
                    q@.len() == g@.dimension,
                    g@.wf(),
                    g@.search_inv(dist, q@, working(visited@, canidates@, found@), count, layer),
                    g@.expand(dist, q@, working(visited@, canidates@, found@), fs, j as int, count)
                        == g@.expand(dist, q@, popped, fs, 0, count),
                    working(visited@, canidates@, found@).slack() >= popped.slack(),
                decreases friends.len() - j,
            {
                let ghost cur = working(visited@, canidates@, found@);
                let e = friends[j].ptr().unwrap();
                proof {
                    g@.lemma_visit(dist, q@, cur, e, count, layer);
                    assert(g@.node_wf(e as int));
                }
                if !contains_rc(&visited, e) {
                    visited.push(e);
                    let item = NodeHeapItem {
                        distance: measure(dist, q, g.nodes[e].vector.as_slice()),
                        node: e,
                    };
                    let furthest = found[found.len() - 1];
                    if distance_key(item.distance) < distance_key(furthest.distance) || found.len()
                        < count {
                        enqueue(&mut canidates, item);
                        enqueue(&mut found, item);
                        if found.len() > count {
                            found.pop();
                        }
                    }
                }
                assert(working(visited@, canidates@, found@) == g@.visit(dist, q@, cur, e, count));
                j = j + 1;
            }
        }
    }
    found
}

impl GraphView {
    /// The node reached from `ep` by greedy descent through the layers `from`
    /// down to `to`: on each layer the single closest node found becomes the
    /// entry to the next.
    pub open spec fn descend<F: Fn(&[u64], &[u64]) -> u64>(
        self,
        dist: &F,
        q: Seq<u64>,
        ep: usize,
        from: int,
        to: int,
    ) -> usize
        decreases from - to + 1,
    {
        if from < to || from < 0 {
            ep
        } else {
            self.descend(
                dist,
                q,
                self.search_layer(dist, q, ep, 1, from as usize)[0].node,
                from - 1,
                to,
            )
        }
    }

    /// The error with which a query fails, if it does: the graph is
    /// unresolved, the query has the wrong length, or more results are asked
    /// for than the search keeps.
    pub open spec fn knn_error(self, len: nat, k: usize, ef: usize) -> Option<GraphError> {
        if !self.resolved() {
            Some(GraphError::UnresolvedGraph)
        } else if len != self.dimension {
            Some(GraphError::DimensionMismatch)
        } else if k > ef {
            Some(GraphError::InvalidParameter)
        } else {
            None
        }
    }

    /// The answer to a query: descend from the entrance to layer 1, search the
    /// base layer with a list of `ef`, and keep the `k` closest.
    pub open spec fn knn<F: Fn(&[u64], &[u64]) -> u64>(
        self,
        dist: &F,
        q: Seq<u64>,
        k: usize,
        ef: usize,
    ) -> Seq<(usize, u64)> {
        let ep = self.descend(dist, q, self.entrence_point.target(), self.layer_count - 1, 1);
        let found = self.search_layer(dist, q, ep, ef, 0);
        found.take(
            if k <= found.len() {
                k as int
            } else {
                found.len() as int
            },
        ).map_values(|it: NodeHeapItem| (it.node, it.distance))
    }

    /// What holds of the answer to a query for `k` neighbours of `q`: at most
    /// `k` entries, each a node of the graph with its distance to `q`, no node
    /// twice, in order of distance and among equal distances in order of index.
    pub open spec fn answer_ok<F: Fn(&[u64], &[u64]) -> u64>(
        self,
        dist: &F,
        q: Seq<u64>,
        k: usize,
        answer: Seq<(usize, u64)>,
    ) -> bool {
        &&& answer.len() <= k
        &&& answer.len() <= self.nodes.len()
        &&& forall|i: int|
            0 <= i < answer.len() ==> (#[trigger] answer[i]).0 < self.nodes.len() && answer[i].1
                == metric(dist, q, self.nodes[answer[i].0 as int].vector)
        &&& forall|i: int, j: int|
            0 <= i < j < answer.len() ==> (#[trigger] answer[i]).0 != (#[trigger] answer[j]).0
        &&& forall|i: int, j: int|
            0 <= i < j < answer.len() ==> spec_distance_key((#[trigger] answer[i]).1)
                < spec_distance_key((#[trigger] answer[j]).1) || (spec_distance_key(answer[i].1)
                == spec_distance_key(answer[j].1) && answer[i].0 < answer[j].0)
    }
}

/// Descends greedily from `entry` through the layers `from` down to `to`, and
/// returns the node reached.
pub fn descend<F: Fn(&[u64], &[u64]) -> u64>(
    g: &Graph,
    q: &[u64],
    entry: usize,
    from: usize,
    to: usize,
    dist: &F,
) -> (r: usize)
    requires
        g@.wf(),
        is_metric(dist),
        q@.len() == g@.dimension,
        g@.on_layer(entry as int, from as int),
    ensures
        r == g@.descend(dist, q@, entry, from as int, to as int),
        from >= to ==> g@.on_layer(r as int, to as int),
        from < to ==> r == entry,
{
    let mut ep = entry;
    assert(g@.node_wf(entry as int));
    let mut l: usize = from + 1;
    while l > to
        invariant
            g@.wf(),
            is_metric(dist),
            q@.len() == g@.dimension,
            l <= from + 1,
            from < to ==> l == from + 1,
            from >= to ==> l >= to,
            l == from + 1 ==> ep == entry,
            g@.on_layer(entry as int, from as int),
            l <= from ==> g@.on_layer(ep as int, l as int),
            g@.descend(dist, q@, ep, l - 1, to as int) == g@.descend(
                dist,
                q@,
                entry,
                from as int,
                to as int,
            ),
        decreases l,
    {
        l = l - 1;
        let found = search_layer(g, q, ep, 1, l, dist);
        ep = found[0].node;
    }
    ep
}

/// Finds the `k` nodes closest to `q`: descends from the entrance to layer 1,
/// searches the base layer with a candidate list of `ef` entries, and returns
/// the `k` closest, each with its index and its distance, closest first.
///
/// Fails with `UnresolvedGraph` on a graph that has not been resolved, else
/// with `DimensionMismatch` if `q` has not the graph's dimension, else with
/// `InvalidParameter` if `k` is more than `ef`.
///
/// With `k` and `ef` both one the answer is the node at which the greedy
/// descent through all layers ends. A graph with fewer than `k` nodes returns
/// them all if all can be reached on the base layer.
pub fn knn_search<F: Fn(&[u64], &[u64]) -> u64>(
    g: &Graph,
    q: &[u64],
    k: usize,
    ef: usize,
    dist: &F,
) -> (r: Result<Vec<(usize, u64)>, GraphError>)
    requires
        g@.resolved() ==> g@.wf(),
        is_metric(dist),
    ensures
        match g@.knn_error(q@.len(), k, ef) {
            Some(e) => r == Err::<Vec<(usize, u64)>, GraphError>(e),
            None => {
                &&& r is Ok
                &&& r->Ok_0@ == g@.knn(dist, q@, k, ef)
                &&& g@.answer_ok(dist, q@, k, r->Ok_0@)
                &&& k == 1 && ef == 1 ==> r->Ok_0@.len() == 1 && r->Ok_0@[0].0 == g@.descend(
                    dist,
                    q@,
                    g@.entrence_point.target(),
                    g@.layer_count - 1,
                    0,
                )
                &&& g@.nodes.len() < k && g@.base_connected(dist, q@) ==> r->Ok_0@.len()
                    == g@.nodes.len()
            },
        },
{
    let entrence_point = match g.entrence_point.weak() {
        Some(e) => e,
        None => {
            return Err(GraphError::UnresolvedGraph);
        },
    };
    if q.len() != g.dimension {
        return Err(GraphError::DimensionMismatch);
    }
    if k > ef {
        return Err(GraphError::InvalidParameter);
    }
    let ep = descend(g, q, entrence_point, g.layer_count - 1, 1, dist);
    let found = search_layer(g, q, ep, ef, 0, dist);
    let count: usize = if k <= found.len() {
        k
    } else {
        found.len()
    };
    let mut res: Vec<(usize, u64)> = Vec::new();
    let mut i: usize = 0;
    while i < count
        invariant
            i <= count <= found.len(),
            res@ == found@.take(i as int).map_values(|it: NodeHeapItem| (it.node, it.distance)),
        decreases count - i,
    {
        res.push((found[i].node, found[i].distance));
        assert(res@ =~= found@.take(i + 1).map_values(
            |it: NodeHeapItem| (it.node, it.distance),
        ));
        i = i + 1;
    }
    proof {
        let visited = Seq::new(found@.len(), |i: int| found@[i].node);
        assert(visited.no_duplicates());
        lemma_distinct_below(visited, g@.nodes.len());
        assert forall|i: int, j: int| 0 <= i < j < res@.len() implies spec_distance_key(
            (#[trigger] res@[i]).1,
        ) < spec_distance_key((#[trigger] res@[j]).1) || (spec_distance_key(res@[i].1)
            == spec_distance_key(res@[j].1) && res@[i].0 < res@[j].0) by {
            assert(!found@[j].precedes(found@[i]));
            assert(found@[i].node != found@[j].node);
        }
        if k == 1 && ef == 1 {
            g@.lemma_single_answer(dist, q@);
        }
        if g@.nodes.len() < k && g@.base_connected(dist, q@) {
            g@.lemma_small_graph(dist, q@, k, ef);
        }
    }
    Ok(res)
}

} // verus!
