//! When insertion keeps the adjacency of a graph symmetric.

use vstd::prelude::*;
use crate::heap::{distinct_nodes, lemma_ordered, lemma_ordered_distinct, ordered, NodeHeapItem};
use crate::hnsw::{ptrs_of, GraphView, NodePtr};

verus! {

/// Whether no node is named twice in `list`.
pub open spec fn distinct_targets(list: Seq<NodePtr>) -> bool {
    forall|i: int, j: int|
        0 <= i < j < list.len() ==> (#[trigger] list[i]).target() != (#[trigger] list[j]).target()
}

impl GraphView {
    /// Whether each node is a neighbour of each of its neighbours, on the same
    /// layer.
    pub open spec fn symmetric(self) -> bool {
        forall|a: usize, b: usize, layer: usize|
            self.on_layer(a as int, layer as int) && #[trigger] self.linked(a, b, layer)
                ==> self.linked(b, a, layer)
    }

    /// Whether `other` differs from this graph in adjacency lists of `layer`
    /// alone.
    pub open spec fn only_layer(self, other: GraphView, layer: usize) -> bool {
        &&& self.same_shape(other)
        &&& forall|a: int, l: int|
            self.on_layer(a, l) && l != layer ==> #[trigger] other.friends(a, l) == self.friends(
                a,
                l,
            )
    }

    /// Whether the adjacency list of `a` on `layer` has room for one more
    /// entry.
    pub open spec fn has_room(self, a: usize, layer: usize) -> bool {
        self.friends(a as int, layer as int).len() < self.limit(layer as int)
    }

    /// A node with room takes a neighbour by appending it.
    pub proof fn lemma_befriend_room<F: Fn(&[u64], &[u64]) -> u64>(
        self,
        dist: &F,
        owner: usize,
        friend: usize,
        layer: usize,
    )
        requires
            self.wf(),
            self.on_layer(owner as int, layer as int),
            self.on_layer(friend as int, layer as int),
            self.has_room(owner, layer),
        ensures
            self.befriend(dist, owner, friend, layer).friends(owner as int, layer as int)
                == self.friends(owner as int, layer as int).push(NodePtr::Ptr(friend)),
    {
        assert(self.node_wf(owner as int));
    }

    /// Taking a neighbour changes the list of the owner on that layer alone.
    pub proof fn lemma_befriend_frame<F: Fn(&[u64], &[u64]) -> u64>(
        self,
        dist: &F,
        owner: usize,
        friend: usize,
        layer: usize,
    )
        requires
            self.wf(),
            self.on_layer(owner as int, layer as int),
            self.on_layer(friend as int, layer as int),
        ensures
            self.befriend(dist, owner, friend, layer).wf(),
            self.only_layer(self.befriend(dist, owner, friend, layer), layer),
            forall|a: int|
                0 <= a < self.nodes.len() && a != owner ==> #[trigger] self.befriend(
                    dist,
                    owner,
                    friend,
                    layer,
                ).friends(a, layer as int) == self.friends(a, layer as int),
    {
        self.lemma_befriend(dist, owner, friend, layer);
        assert(self.node_wf(owner as int));
    }

    /// When `u` and `v`, both with room, take each other as neighbours, each
    /// list grows by the other node, no other list changes, and a symmetric
    /// graph stays symmetric.
    pub proof fn lemma_push_friend_room<F: Fn(&[u64], &[u64]) -> u64>(
        self,
        dist: &F,
        u: usize,
        v: usize,
        layer: usize,
    )
        requires
            self.wf(),
            self.on_layer(u as int, layer as int),
            self.on_layer(v as int, layer as int),
            u != v,
            self.has_room(u, layer),
        ensures
            self.push_friend(dist, u, v, layer, true).wf(),
            self.only_layer(self.push_friend(dist, u, v, layer, true), layer),
            self.push_friend(dist, u, v, layer, true).friends(u as int, layer as int)
                == self.friends(u as int, layer as int).push(NodePtr::Ptr(v)),
            forall|a: int|
                0 <= a < self.nodes.len() && a != u && a != v ==> #[trigger] self.push_friend(
                    dist,
                    u,
                    v,
                    layer,
                    true,
                ).friends(a, layer as int) == self.friends(a, layer as int),
            self.has_room(v, layer) ==> self.push_friend(dist, u, v, layer, true).friends(
                v as int,
                layer as int,
            ) == self.friends(v as int, layer as int).push(NodePtr::Ptr(u)),
            self.has_room(v, layer) && self.symmetric() ==> self.push_friend(
                dist,
                u,
                v,
                layer,
                true,
            ).symmetric(),
    {
        let mid = self.befriend(dist, v, u, layer);
        let end = mid.befriend(dist, u, v, layer);
        self.lemma_befriend_frame(dist, v, u, layer);
        assert(mid.on_layer(u as int, layer as int));
        assert(mid.on_layer(v as int, layer as int));
        assert(mid.friends(u as int, layer as int) == self.friends(u as int, layer as int));
        mid.lemma_befriend_frame(dist, u, v, layer);
        mid.lemma_befriend_room(dist, u, v, layer);
        self.lemma_same_shape(mid, end);
        assert forall|a: int, l: int| self.on_layer(a, l) && l != layer implies #[trigger] end.friends(
            a,
            l,
        ) == self.friends(a, l) by {
            assert(mid.friends(a, l) == self.friends(a, l));
            assert(mid.on_layer(a, l));
        }
        assert forall|a: int| 0 <= a < self.nodes.len() && a != u && a != v implies #[trigger] end.friends(
            a,
            layer as int,
        ) == self.friends(a, layer as int) by {
            assert(mid.friends(a, layer as int) == self.friends(a, layer as int));
        }
        if self.has_room(v, layer) {
            self.lemma_befriend_room(dist, v, u, layer);
            assert(end.friends(v as int, layer as int) == mid.friends(v as int, layer as int));
            if self.symmetric() {
                self.lemma_pair_symmetric(end, u, v, layer);
            }
        }
    }

    /// A symmetric graph in which `u` and `v` are appended to each other's
    /// lists on `layer`, and nothing else changes, is symmetric.
    pub proof fn lemma_pair_symmetric(self, end: GraphView, u: usize, v: usize, layer: usize)
        requires
            self.wf(),
            self.symmetric(),
            self.only_layer(end, layer),
            self.on_layer(u as int, layer as int),
            self.on_layer(v as int, layer as int),
            end.friends(u as int, layer as int) == self.friends(u as int, layer as int).push(
                NodePtr::Ptr(v),
            ),
            end.friends(v as int, layer as int) == self.friends(v as int, layer as int).push(
                NodePtr::Ptr(u),
            ),
            forall|a: int|
                0 <= a < self.nodes.len() && a != u && a != v ==> #[trigger] end.friends(
                    a,
                    layer as int,
                ) == self.friends(a, layer as int),
        ensures
            end.symmetric(),
    {
        assert forall|a: usize, b: usize, l: usize|
            end.on_layer(a as int, l as int) && #[trigger] end.linked(a, b, l) implies end.linked(
            b,
            a,
            l,
        ) by {
            self.lemma_grown_list(end, u, v, layer, a, l);
            if (a == u && b == v && l == layer) {
                let fv = end.friends(v as int, layer as int);
                assert(fv[fv.len() - 1].target() == u);
            } else if (a == v && b == u && l == layer) {
                let fu = end.friends(u as int, layer as int);
                assert(fu[fu.len() - 1].target() == v);
            } else {
                let fa = end.friends(a as int, l as int);
                let j = choose|j: int| 0 <= j < fa.len() && (#[trigger] fa[j]).target() == b;
                let ga = self.friends(a as int, l as int);
                if l == layer && (a == u || a == v) {
                    assert(j < ga.len());
                    assert(ga[j] == fa[j]);
                } else {
                    assert(ga == fa);
                }
                assert(self.linked(a, b, l));
                assert(self.linked(b, a, l));
                assert(self.node_wf(a as int));
                assert(self.list_wf(a as int, l as int));
                assert(self.on_layer(ga[j].target() as int, l as int));
                let gb = self.friends(b as int, l as int);
                let k = choose|k: int| 0 <= k < gb.len() && (#[trigger] gb[k]).target() == a;
                assert(k < self.friends(b as int, l as int).len());
                self.lemma_grown_list(end, u, v, layer, b, l);
                let fb = end.friends(b as int, l as int);
                assert(fb[k] == gb[k]);
            }
        }
    }

    /// In a graph in which `u` and `v` are appended to each other's lists on
    /// `layer`, and nothing else changes, every list begins with what it was.
    pub proof fn lemma_grown_list(
        self,
        end: GraphView,
        u: usize,
        v: usize,
        layer: usize,
        a: usize,
        l: usize,
    )
        requires
            self.only_layer(end, layer),
            end.friends(u as int, layer as int) == self.friends(u as int, layer as int).push(
                NodePtr::Ptr(v),
            ),
            end.friends(v as int, layer as int) == self.friends(v as int, layer as int).push(
                NodePtr::Ptr(u),
            ),
            forall|a: int|
                0 <= a < self.nodes.len() && a != u && a != v ==> #[trigger] end.friends(
                    a,
                    layer as int,
                ) == self.friends(a, layer as int),
        ensures
            self.on_layer(a as int, l as int) == end.on_layer(a as int, l as int),
            self.on_layer(a as int, l as int) ==> self.friends(a as int, l as int).len()
                <= end.friends(a as int, l as int).len() && forall|k: int|
                0 <= k < self.friends(a as int, l as int).len() ==> #[trigger] end.friends(
                    a as int,
                    l as int,
                )[k] == self.friends(a as int, l as int)[k],
    {
        if self.on_layer(a as int, l as int) {
            assert(end.nodes[a as int].max_level == self.nodes[a as int].max_level);
            if l != layer {
                assert(end.friends(a as int, l as int) == self.friends(a as int, l as int));
            } else if a != u && a != v {
                assert(end.friends(a as int, l as int) == self.friends(a as int, l as int));
            }
        } else {
            if 0 <= a < self.nodes.len() {
                assert(end.nodes[a as int].max_level == self.nodes[a as int].max_level);
            }
        }
    }

    /// Whether `a` is none of the nodes that `neighbors[j..]` name.
    pub open spec fn unnamed(neighbors: Seq<NodePtr>, j: int, a: int) -> bool {
        forall|k: int| j <= k < neighbors.len() ==> (#[trigger] neighbors[k]).target() != a
    }

    /// Whether each of the nodes that `neighbors[j..]` name, `u` excepted, has
    /// room on `layer`.
    pub open spec fn all_have_room(self, neighbors: Seq<NodePtr>, j: int, u: usize, layer: usize) -> bool {
        forall|k: int|
            j <= k < neighbors.len() && (#[trigger] neighbors[k]).target() != u ==> self.has_room(
                neighbors[k].target(),
                layer,
            )
    }

    /// Graphs that differ in the lists of one layer alone from a common one
    /// differ so from each other.
    pub proof fn lemma_only_layer(self, mid: GraphView, last: GraphView, layer: usize)
        requires
            self.only_layer(mid, layer),
            mid.only_layer(last, layer),
        ensures
            self.only_layer(last, layer),
    {
        self.lemma_same_shape(mid, last);
        assert forall|a: int, l: int| self.on_layer(a, l) && l != layer implies #[trigger] last.friends(
            a,
            l,
        ) == self.friends(a, l) by {
            assert(mid.friends(a, l) == self.friends(a, l));
            assert(mid.nodes[a].max_level == self.nodes[a].max_level);
            assert(mid.on_layer(a, l));
        }
    }

    /// Linking the node `u`, whose list has room for all of them, with the
    /// nodes that `neighbors[j..]` name changes lists of that layer alone,
    /// leaves the lists of all other nodes but those as they were, and makes
    /// each of them a neighbour of `u`. If moreover each of them has room and
    /// none is named twice, a symmetric graph stays symmetric.
    pub proof fn lemma_link_all<F: Fn(&[u64], &[u64]) -> u64>(
        self,
        dist: &F,
        u: usize,
        neighbors: Seq<NodePtr>,
        j: int,
        layer: usize,
    )
        requires
            self.wf(),
            self.on_layer(u as int, layer as int),
            self.list_on_layer(neighbors, layer as int),
            0 <= j <= neighbors.len(),
            self.friends(u as int, layer as int).len() + (neighbors.len() - j) <= self.limit(
                layer as int,
            ),
        ensures
            self.link_all(dist, u, neighbors, j, layer).wf(),
            self.only_layer(self.link_all(dist, u, neighbors, j, layer), layer),
            forall|k: int|
                j <= k < neighbors.len() && (#[trigger] neighbors[k]).target() != u
                    ==> self.link_all(dist, u, neighbors, j, layer).linked(
                    u,
                    neighbors[k].target(),
                    layer,
                ),
            forall|i: int|
                0 <= i < self.friends(u as int, layer as int).len() ==> #[trigger] self.link_all(
                    dist,
                    u,
                    neighbors,
                    j,
                    layer,
                ).friends(u as int, layer as int)[i] == self.friends(u as int, layer as int)[i],
            self.friends(u as int, layer as int).len() <= self.link_all(
                dist,
                u,
                neighbors,
                j,
                layer,
            ).friends(u as int, layer as int).len(),
            forall|a: int|
                0 <= a < self.nodes.len() && a != u && Self::unnamed(neighbors, j, a)
                    ==> #[trigger] self.link_all(dist, u, neighbors, j, layer).friends(
                    a,
                    layer as int,
                ) == self.friends(a, layer as int),
            self.symmetric() && distinct_targets(neighbors) && self.all_have_room(
                neighbors,
                j,
                u,
                layer,
            ) ==> self.link_all(dist, u, neighbors, j, layer).symmetric(),
        decreases neighbors.len() - j,
    {
        let end = self.link_all(dist, u, neighbors, j, layer);
        if j < neighbors.len() {
            let v = neighbors[j].target();
            let fu = self.friends(u as int, layer as int);
            if v != u {
                let next = self.push_friend(dist, u, v, layer, true);
                self.lemma_push_friend_room(dist, u, v, layer);
                assert(next.on_layer(u as int, layer as int));
                assert forall|k: int| 0 <= k < neighbors.len() implies (#[trigger] neighbors[k]) is Ptr
                    && next.on_layer(neighbors[k].target() as int, layer as int) by {
                    assert(self.on_layer(neighbors[k].target() as int, layer as int));
                }
                next.lemma_link_all(dist, u, neighbors, j + 1, layer);
                self.lemma_only_layer(next, end, layer);
                let nu = next.friends(u as int, layer as int);
                assert(nu[nu.len() - 1].target() == v);
                assert(end.friends(u as int, layer as int)[fu.len() as int] == nu[fu.len() as int]);
                assert(end.linked(u, v, layer));
                assert forall|i: int| 0 <= i < fu.len() implies #[trigger] end.friends(
                    u as int,
                    layer as int,
                )[i] == fu[i] by {
                    assert(nu[i] == fu[i]);
                }
                assert forall|a: int|
                    0 <= a < self.nodes.len() && a != u && Self::unnamed(
                        neighbors,
                        j,
                        a,
                    ) implies #[trigger] end.friends(a, layer as int) == self.friends(
                    a,
                    layer as int,
                ) by {
                    assert(neighbors[j].target() != a);
                    assert(Self::unnamed(neighbors, j + 1, a));
                    assert(next.friends(a, layer as int) == self.friends(a, layer as int));
                }
                if self.symmetric() && distinct_targets(neighbors) && self.all_have_room(
                    neighbors,
                    j,
                    u,
                    layer,
                ) {
                    assert(self.has_room(v, layer));
                    assert forall|k: int|
                        j + 1 <= k < neighbors.len() && (#[trigger] neighbors[k]).target()
                            != u implies next.has_room(neighbors[k].target(), layer) by {
                        let w = neighbors[k].target();
                        assert(neighbors[j].target() != neighbors[k].target());
                        assert(self.has_room(w, layer));
                        assert(self.on_layer(w as int, layer as int));
                        assert(next.friends(w as int, layer as int) == self.friends(
                            w as int,
                            layer as int,
                        ));
                    }
                }
            } else {
                self.lemma_link_all(dist, u, neighbors, j + 1, layer);
                assert forall|a: int|
                    0 <= a < self.nodes.len() && a != u && Self::unnamed(
                        neighbors,
                        j,
                        a,
                    ) implies #[trigger] end.friends(a, layer as int) == self.friends(
                    a,
                    layer as int,
                ) by {
                    assert(Self::unnamed(neighbors, j + 1, a));
                }
            }
        } else {
            self.lemma_same_shape(self, self);
        }
    }

    /// What is selected from distinct nodes names no node twice.
    pub proof fn lemma_select_distinct<F: Fn(&[u64], &[u64]) -> u64>(
        self,
        dist: &F,
        q: Seq<u64>,
        nearest: Seq<NodeHeapItem>,
        m: usize,
    )
        requires
            distinct_nodes(nearest),
        ensures
            distinct_targets(self.select(dist, q, ptrs_of(nearest), m)),
    {
        let items = self.items_of(dist, q, ptrs_of(nearest));
        assert forall|i: int, j: int| 0 <= i < j < items.len() implies (#[trigger] items[i]).node != (
        #[trigger] items[j]).node by {
            assert(nearest[i].node != nearest[j].node);
        }
        lemma_ordered_distinct(items);
        lemma_ordered(items);
        let o = ordered(items);
        let kept = self.select(dist, q, ptrs_of(nearest), m);
        assert forall|i: int, j: int| 0 <= i < j < kept.len() implies (#[trigger] kept[i]).target() != (
        #[trigger] kept[j]).target() by {
            assert(o[i].node != o[j].node);
        }
    }

    /// Whether every neighbour that `u` has in `end` on a layer up to `layer`
    /// has room on that layer in this graph.
    pub open spec fn neighbors_had_room(self, end: GraphView, u: usize, layer: int) -> bool {
        forall|l: usize, b: usize|
            l <= layer && #[trigger] end.linked(u, b, l) ==> self.has_room(b, l)
    }

    /// Giving the node `u`, which has no neighbours yet on the layers up to
    /// `layer`, its neighbours on those layers keeps the graph well-formed and
    /// leaves the lists of the layers above as they were. If every neighbour
    /// that `u` is given had room, a symmetric graph stays symmetric.
    pub proof fn lemma_fill<F: Fn(&[u64], &[u64]) -> u64>(
        self,
        dist: &F,
        q: Seq<u64>,
        u: usize,
        ep: usize,
        layer: int,
    )
        requires
            self.wf(),
            -1 <= layer,
            layer >= 0 ==> self.on_layer(u as int, layer) && self.on_layer(ep as int, layer),
            forall|l: int| 0 <= l <= layer ==> (#[trigger] self.friends(u as int, l)).len() == 0,
        ensures
            self.fill(dist, q, u, ep, layer).wf(),
            self.same_shape(self.fill(dist, q, u, ep, layer)),
            forall|a: int, l: int|
                self.on_layer(a, l) && l > layer ==> #[trigger] self.fill(
                    dist,
                    q,
                    u,
                    ep,
                    layer,
                ).friends(a, l) == self.friends(a, l),
            self.symmetric() && self.neighbors_had_room(self.fill(dist, q, u, ep, layer), u, layer)
                ==> self.fill(dist, q, u, ep, layer).symmetric(),
        decreases layer + 1,
    {
        let end = self.fill(dist, q, u, ep, layer);
        if layer < 0 {
            self.lemma_same_shape(self, self);
        } else {
            let lay = layer as usize;
            let nearest = self.search_layer(dist, q, ep, self.canidate_list_size, lay);
            self.lemma_search_layer(dist, q, ep, self.canidate_list_size, lay);
            let cands = ptrs_of(nearest);
            let m = self.limit(layer);
            let neighbors = self.select(dist, q, cands, m);
            self.lemma_select(dist, q, cands, m);
            self.lemma_select_distinct(dist, q, nearest, m);
            assert forall|k: int| 0 <= k < neighbors.len() implies (#[trigger] neighbors[k]) is Ptr
                && self.on_layer(neighbors[k].target() as int, layer) by {
                let c = choose|c: int|
                    0 <= c < cands.len() && (#[trigger] cands[c]).target() == neighbors[k].target();
                assert(self.on_layer(nearest[c].node as int, layer));
            }
            assert(self.friends(u as int, layer).len() == 0);
            let linked = self.link_all(dist, u, neighbors, 0, lay);
            self.lemma_link_all(dist, u, neighbors, 0, lay);
            let next_ep = nearest[0].node;
            assert(self.on_layer(next_ep as int, layer));
            assert(linked.nodes[next_ep as int].max_level == self.nodes[next_ep as int].max_level);
            assert(linked.nodes[u as int].max_level == self.nodes[u as int].max_level);
            assert forall|l: int| 0 <= l <= layer - 1 implies (#[trigger] linked.friends(
                u as int,
                l,
            )).len() == 0 by {
                assert(self.on_layer(u as int, l));
                assert(self.friends(u as int, l).len() == 0);
            }
            linked.lemma_fill(dist, q, u, next_ep, layer - 1);
            assert(end == linked.fill(dist, q, u, next_ep, layer - 1));
            self.lemma_same_shape(linked, end);
            assert forall|a: int, l: int| self.on_layer(a, l) && l > layer implies #[trigger] end.friends(
                a,
                l,
            ) == self.friends(a, l) by {
                assert(linked.on_layer(a, l));
                assert(linked.friends(a, l) == self.friends(a, l));
            }
            if self.symmetric() && self.neighbors_had_room(end, u, layer) {
                assert(end.friends(u as int, layer) == linked.friends(u as int, layer)) by {
                    assert(linked.on_layer(u as int, layer));
                }
                assert forall|k: int|
                    0 <= k < neighbors.len() && (#[trigger] neighbors[k]).target()
                        != u implies self.has_room(neighbors[k].target(), lay) by {
                    assert(linked.linked(u, neighbors[k].target(), lay));
                    assert(end.linked(u, neighbors[k].target(), lay));
                }
                assert(linked.symmetric());
                assert forall|l: usize, b: usize|
                    l <= layer - 1 && #[trigger] end.linked(u, b, l) implies linked.has_room(
                    b,
                    l,
                ) by {
                    assert(self.has_room(b, l));
                    assert(end.on_layer(u as int, l as int));
                    assert(end.node_wf(u as int));
                    assert(end.list_wf(u as int, l as int));
                    let fl = end.friends(u as int, l as int);
                    let j = choose|j: int| 0 <= j < fl.len() && (#[trigger] fl[j]).target() == b;
                    assert(end.on_layer(fl[j].target() as int, l as int));
                    assert(self.on_layer(b as int, l as int));
                    assert(linked.friends(b as int, l as int) == self.friends(b as int, l as int));
                }
            }
        }
    }

    /// Insertion keeps a symmetric graph symmetric if every neighbour that the
    /// new node is given had room for it: if no list that takes the new node
    /// was full.
    pub proof fn lemma_insert_symmetric<F: Fn(&[u64], &[u64]) -> u64>(
        self,
        dist: &F,
        q: Seq<u64>,
        sampled: usize,
    )
        requires
            self.wf(),
            self.symmetric(),
            q.len() == self.dimension,
            self.nodes.len() < usize::MAX,
            self.layer_count < usize::MAX,
            self.new_neighbors_had_room(self.inserted(dist, q, sampled)),
        ensures
            self.inserted(dist, q, sampled).symmetric(),
    {
        let level = self.clamped(sampled);
        let top = self.layer_count - 1;
        let u = self.nodes.len() as usize;
        let grown = self.with_node(q, level);
        self.lemma_with_node(q, level);
        let e = self.entrence_point.target();
        grown.lemma_descend(dist, q, e, top, level + 1);
        let ep = grown.descend(dist, q, e, top, level + 1);
        let start: int = if level < top {
            level as int
        } else {
            top
        };
        let end = grown.fill(dist, q, u, ep, start);
        assert(end == self.inserted(dist, q, sampled));
        assert(grown.node_wf(e as int));
        assert(grown.on_layer(ep as int, start));
        assert forall|l: int| 0 <= l <= start implies (#[trigger] grown.friends(u as int, l)).len()
            == 0 by {}
        grown.lemma_fill(dist, q, u, ep, start);
        assert(grown.symmetric()) by {
            assert forall|a: usize, b: usize, l: usize|
                grown.on_layer(a as int, l as int) && #[trigger] grown.linked(
                    a,
                    b,
                    l,
                ) implies grown.linked(b, a, l) by {
                let ga = grown.friends(a as int, l as int);
                let i = choose|i: int| 0 <= i < ga.len() && (#[trigger] ga[i]).target() == b;
                if a == u {
                    assert(ga.len() == 0);
                } else {
                    assert(grown.nodes[a as int] == self.nodes[a as int]);
                    assert(self.friends(a as int, l as int)[i].target() == b);
                    assert(self.linked(a, b, l));
                    assert(self.node_wf(a as int));
                    assert(self.list_wf(a as int, l as int));
                    let fa = self.friends(a as int, l as int);
                    let j = choose|j: int| 0 <= j < fa.len() && (#[trigger] fa[j]).target() == b;
                    assert(self.on_layer(fa[j].target() as int, l as int));
                    assert(grown.nodes[b as int] == self.nodes[b as int]);
                    assert(self.on_layer(a as int, l as int));
                    assert(self.linked(b, a, l));
                    let fb = self.friends(b as int, l as int);
                    let k = choose|k: int| 0 <= k < fb.len() && (#[trigger] fb[k]).target() == a;
                    assert(grown.friends(b as int, l as int)[k].target() == a);
                }
            }
        }
        assert forall|l: usize, b: usize|
            l <= start && #[trigger] end.linked(u, b, l) implies grown.has_room(b, l) by {
            if b == u {
                assert(grown.friends(u as int, l as int).len() == 0);
            } else {
                assert(end.on_layer(u as int, l as int));
                assert(end.node_wf(u as int));
                assert(end.list_wf(u as int, l as int));
                let fl = end.friends(u as int, l as int);
                let j = choose|j: int| 0 <= j < fl.len() && (#[trigger] fl[j]).target() == b;
                assert(end.on_layer(fl[j].target() as int, l as int));
                assert(b < self.nodes.len());
                assert(self.has_room(b, l));
                assert(grown.nodes[b as int] == self.nodes[b as int]);
            }
        }
    }
}

} // verus!
