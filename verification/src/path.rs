//! Shortest learning path between two concepts, by breadth-first search along the
//! edges (from a prerequisite to its dependents).
use vstd::prelude::*;
use crate::concept::ConceptId;
use crate::graph::{PrereqGraph, contains_id, id_views};
use crate::lemmas::lemma_distinct_within;

verus! {

/// Some edge of `es` goes from `a` to `b`.
pub open spec fn has_edge(es: Seq<(Seq<char>, Seq<char>)>, a: Seq<char>, b: Seq<char>) -> bool {
    exists|k: int| 0 <= k < es.len() && (#[trigger] es[k]).0 == a && es[k].1 == b
}

/// Step `i` of `p` follows an edge.
pub open spec fn walk_step(es: Seq<(Seq<char>, Seq<char>)>, p: Seq<Seq<char>>, i: int) -> bool {
    has_edge(es, p[i], p[i + 1])
}

/// `p` is a walk along the edges from `a` to `b` (a single element when `a` is `b`).
pub open spec fn is_walk(es: Seq<(Seq<char>, Seq<char>)>, p: Seq<Seq<char>>, a: Seq<char>, b: Seq<char>) -> bool {
    &&& p.len() >= 1
    &&& p[0] == a
    &&& p.last() == b
    &&& forall|i: int| 0 <= i < p.len() - 1 ==> #[trigger] walk_step(es, p, i)
}

/// Some walk leads from `a` to `b`.
pub open spec fn connected(es: Seq<(Seq<char>, Seq<char>)>, a: Seq<char>, b: Seq<char>) -> bool {
    exists|p: Seq<Seq<char>>| #[trigger] is_walk(es, p, a, b)
}

/// `p` is a shortest walk from `a` to `b`.
pub open spec fn is_shortest_walk(es: Seq<(Seq<char>, Seq<char>)>, p: Seq<Seq<char>>, a: Seq<char>, b: Seq<char>) -> bool {
    &&& is_walk(es, p, a, b)
    &&& forall|q: Seq<Seq<char>>| #[trigger] is_walk(es, q, a, b) ==> p.len() <= q.len()
}

/// Breadth-first discovery from the node `cur` at position `h`: scanning the first `k`
/// edges in order, each edge out of `cur` whose target is not yet in `nodes` appends the
/// target, with `h` as its parent position.
pub open spec fn discover(
    es: Seq<(Seq<char>, Seq<char>)>,
    cur: Seq<char>,
    h: int,
    nodes: Seq<Seq<char>>,
    parents: Seq<int>,
    k: nat,
) -> (Seq<Seq<char>>, Seq<int>)
    decreases k,
{
    if k == 0 || k > es.len() {
        (nodes, parents)
    } else {
        let st = discover(es, cur, h, nodes, parents, (k - 1) as nat);
        let e = es[k - 1];
        if e.0 == cur && !st.0.contains(e.1) {
            (st.0.push(e.1), st.1.push(h))
        } else {
            st
        }
    }
}

/// The discovered nodes of a breadth-first search from `from`, in discovery order, with the
/// positions of their parents, after the first `h` of them have been expanded.
pub open spec fn bfs(es: Seq<(Seq<char>, Seq<char>)>, from: Seq<char>, h: nat) -> (Seq<Seq<char>>, Seq<int>)
    decreases h,
{
    if h == 0 {
        (seq![from], seq![0int])
    } else {
        let st = bfs(es, from, (h - 1) as nat);
        if h - 1 < st.0.len() {
            discover(es, st.0[h - 1], h - 1, st.0, st.1, es.len())
        } else {
            st
        }
    }
}

/// The walk from the first node to `nodes[i]` along the parent positions.
pub open spec fn trace(nodes: Seq<Seq<char>>, parents: Seq<int>, i: int) -> Seq<Seq<char>>
    decreases i,
{
    if 0 < i && 0 <= parents[i] < i {
        trace(nodes, parents, parents[i]).push(nodes[i])
    } else {
        seq![nodes[i]]
    }
}

/// The walk a breadth-first search from `from` finds to `to`: expanding discovered nodes in
/// order from position `h`, it stops at the first one that is `to` and follows the parent
/// positions back; empty when the search runs out (or `fuel` does, which never happens
/// for `fuel` at least the number of nodes left to expand).
pub open spec fn bfs_walk(es: Seq<(Seq<char>, Seq<char>)>, from: Seq<char>, to: Seq<char>, h: nat, fuel: nat) -> Seq<Seq<char>>
    decreases fuel,
{
    let st = bfs(es, from, h);
    if fuel == 0 || h >= st.0.len() {
        Seq::empty()
    } else if st.0[h as int] == to {
        trace(st.0, st.1, h as int)
    } else {
        bfs_walk(es, from, to, h + 1, (fuel - 1) as nat)
    }
}

/// Parent positions as integers.
pub open spec fn positions(p: Seq<usize>) -> Seq<int> {
    p.map_values(|x: usize| x as int)
}

/// Step `i` of the reversed walk `r` follows an edge backwards.
spec fn back_step(es: Seq<(Seq<char>, Seq<char>)>, r: Seq<Seq<char>>, i: int) -> bool {
    has_edge(es, r[i + 1], r[i])
}

proof fn lemma_walk_drop_last(es: Seq<(Seq<char>, Seq<char>)>, p: Seq<Seq<char>>, a: Seq<char>, b: Seq<char>)
    requires
        is_walk(es, p, a, b),
        p.len() >= 2,
    ensures
        is_walk(es, p.drop_last(), a, p[p.len() - 2]),
        has_edge(es, p[p.len() - 2], b),
{
    let q = p.drop_last();
    assert forall|i: int| 0 <= i < q.len() - 1 implies #[trigger] walk_step(es, q, i) by {
        assert(walk_step(es, p, i));
    }
    assert(walk_step(es, p, p.len() - 2));
}

impl PrereqGraph {
    /// Shortest learning path between two concepts: a shortest walk along the edges from
    /// `from` to `to`, or nothing when there is none. It is the walk that breadth-first
    /// search finds, scanning the edges in order.
    pub fn learning_path(&self, from: &ConceptId, to: &ConceptId) -> (r: Vec<ConceptId>)
        ensures
            connected(self.links(), from@, to@) ==> is_shortest_walk(self.links(), id_views(r@), from@, to@),
            !connected(self.links(), from@, to@) ==> r@.len() == 0,
            from@ == to@ ==> id_views(r@) == seq![from@],
            from@ != to@ ==> id_views(r@) == bfs_walk(self.links(), from@, to@, 0, (self.links().len() + 1) as nat),
    {
        let ghost es = self.links();
        if from.same(to) {
            let r = vec![from.duplicate()];
            proof {
                let rv = id_views(r@);
                assert(rv =~= seq![from@]);
                assert(is_walk(es, rv, from@, to@));
            }
            return r;
        }
        let m = self.edges.len();
        let mut nodes: Vec<ConceptId> = Vec::new();
        nodes.push(from.duplicate());
        let mut parent: Vec<usize> = Vec::new();
        parent.push(0);
        let ghost mut dist: Seq<int> = seq![0int];
        let ghost ends: Seq<Seq<char>> = seq![from@] + es.map_values(|e: (Seq<char>, Seq<char>)| e.1);
        let mut head: usize = 0;
        proof {
            let vs = id_views(nodes@);
            assert(vs =~= seq![from@]);
            assert(positions(parent@) =~= seq![0int]);
            assert(ends[0] == from@);
            assert forall|i: int, p: Seq<Seq<char>>| 0 <= i < vs.len() && #[trigger] is_walk(es, p, from@, vs[i])
                implies dist[i] + 1 <= p.len() by {
            }
        }
        while head < nodes.len()
            invariant
                es == self.links(),
                m == es.len(),
                m == self.edges@.len(),
                from@ != to@,
                ends == seq![from@] + es.map_values(|e: (Seq<char>, Seq<char>)| e.1),
                bfs(es, from@, head as nat) == (id_views(nodes@), positions(parent@)),
                bfs_walk(es, from@, to@, 0, (m + 1) as nat) == bfs_walk(es, from@, to@, head as nat, (m + 1 - head) as nat),
                nodes@.len() <= m + 1,
                id_views(nodes@).len() >= 1,
                id_views(nodes@)[0] == from@,
                id_views(nodes@).no_duplicates(),
                parent@.len() == nodes@.len(),
                dist.len() == nodes@.len(),
                dist[0] == 0,
                0 <= head <= nodes@.len(),
                forall|i: int| 1 <= i < nodes@.len() ==> #[trigger] parent@[i] < head,
                forall|i: int| 1 <= i < nodes@.len() ==> #[trigger] parent@[i] < i,
                forall|i: int| 1 <= i < nodes@.len() ==> #[trigger] dist[i] == dist[parent@[i] as int] + 1,
                forall|i: int| 1 <= i < nodes@.len() ==> has_edge(es, id_views(nodes@)[parent@[i] as int], #[trigger] id_views(nodes@)[i]),
                forall|i: int| 0 <= i < nodes@.len() ==> ends.contains(#[trigger] id_views(nodes@)[i]),
                forall|i: int, j: int| 0 <= i <= j < nodes@.len() ==> #[trigger] dist[i] <= #[trigger] dist[j],
                head < nodes@.len() ==> dist[nodes@.len() - 1] <= dist[head as int] + 1,
                forall|i: int| 0 <= i < head ==> id_views(nodes@)[i] != to@,
                forall|i: int, k: int| 0 <= i < head && 0 <= k < es.len() && (#[trigger] es[k]).0 == #[trigger] id_views(nodes@)[i]
                    ==> id_views(nodes@).contains(es[k].1),
                forall|i: int, p: Seq<Seq<char>>| 0 <= i < nodes@.len() && #[trigger] is_walk(es, p, from@, id_views(nodes@)[i])
                    ==> dist[i] + 1 <= p.len(),
                head < nodes@.len() ==> forall|p: Seq<Seq<char>>, x: Seq<char>|
                    #[trigger] is_walk(es, p, from@, x) && p.len() <= dist[head as int]
                    ==> exists|i: int| 0 <= i < head && id_views(nodes@)[i] == x,
            decreases m + 1 - head,
        {
            let cur = nodes[head].duplicate();
            if cur.same(to) {
                let r = self.trace_back(&nodes, &parent, head, Ghost(dist), Ghost(from@));
                return r;
            }
            let ghost d0 = dist[head as int];
            let ghost n0 = nodes@.len();
            let ghost st0 = (id_views(nodes@), positions(parent@));
            assert(discover(es, cur@, head as int, st0.0, st0.1, 0) == st0);
            let mut k: usize = 0;
            while k < m
                invariant
                    es == self.links(),
                    m == es.len(),
                    m == self.edges@.len(),
                    from@ != to@,
                    ends == seq![from@] + es.map_values(|e: (Seq<char>, Seq<char>)| e.1),
                    cur@ == id_views(nodes@)[head as int],
                    cur@ == st0.0[head as int],
                    st0 == bfs(es, from@, head as nat),
                    (id_views(nodes@), positions(parent@)) == discover(es, cur@, head as int, st0.0, st0.1, k as nat),
                    cur@ != to@,
                    d0 == dist[head as int],
                    n0 <= nodes@.len(),
                    id_views(nodes@).len() >= 1,
                    id_views(nodes@)[0] == from@,
                    id_views(nodes@).no_duplicates(),
                    parent@.len() == nodes@.len(),
                    dist.len() == nodes@.len(),
                    dist[0] == 0,
                    0 <= head < n0,
                    0 <= k <= m,
                    forall|i: int| 1 <= i < nodes@.len() ==> #[trigger] parent@[i] <= head,
                    forall|i: int| 1 <= i < nodes@.len() ==> #[trigger] parent@[i] < i,
                    forall|i: int| n0 <= i < nodes@.len() ==> #[trigger] dist[i] == d0 + 1,
                    forall|i: int| 1 <= i < nodes@.len() ==> #[trigger] dist[i] == dist[parent@[i] as int] + 1,
                    forall|i: int| 1 <= i < nodes@.len() ==> has_edge(es, id_views(nodes@)[parent@[i] as int], #[trigger] id_views(nodes@)[i]),
                    forall|i: int| 0 <= i < nodes@.len() ==> ends.contains(#[trigger] id_views(nodes@)[i]),
                    forall|i: int, j: int| 0 <= i <= j < nodes@.len() ==> #[trigger] dist[i] <= #[trigger] dist[j],
                    dist[nodes@.len() - 1] <= d0 + 1,
                    forall|i: int| 0 <= i <= head ==> id_views(nodes@)[i] != to@,
                    forall|i: int, k2: int| 0 <= i < head && 0 <= k2 < es.len() && (#[trigger] es[k2]).0 == #[trigger] id_views(nodes@)[i]
                        ==> id_views(nodes@).contains(es[k2].1),
                    forall|k2: int| 0 <= k2 < k && (#[trigger] es[k2]).0 == cur@ ==> id_views(nodes@).contains(es[k2].1),
                    forall|i: int, p: Seq<Seq<char>>| 0 <= i < nodes@.len() && #[trigger] is_walk(es, p, from@, id_views(nodes@)[i])
                        ==> dist[i] + 1 <= p.len(),
                    forall|p: Seq<Seq<char>>, x: Seq<char>|
                        #[trigger] is_walk(es, p, from@, x) && p.len() <= d0
                        ==> exists|i: int| 0 <= i < head && id_views(nodes@)[i] == x,
                decreases m - k,
            {
                let ghost vb = id_views(nodes@);
                let ghost pb = parent@;
                assert(es[k as int] == (self.edges@[k as int].0@, self.edges@[k as int].1@));
                let ghost pb2 = positions(parent@);
                if self.edges[k].0.same(&cur) && !contains_id(nodes.as_slice(), &self.edges[k].1) {
                    let y = self.edges[k].1.duplicate();
                    nodes.push(y);
                    parent.push(head);
                    proof {
                        assert(positions(parent@) =~= pb2.push(head as int));
                        assert(id_views(nodes@) =~= vb.push(y@));
                        dist = dist.push(d0 + 1);
                        let va = id_views(nodes@);
                        assert(va =~= vb.push(y@));
                        assert(has_edge(es, vb[head as int], y@));
                        assert(ends[k + 1] == es[k as int].1);
                        assert(va.no_duplicates()) by {
                            assert forall|a: int, b: int| 0 <= a < va.len() && 0 <= b < va.len() && a != b
                                implies va[a] != va[b] by {
                                if a < vb.len() && b < vb.len() {
                                } else if a < vb.len() {
                                    assert(vb.contains(va[a]));
                                } else {
                                    assert(vb.contains(va[b]));
                                }
                            }
                        }
                        assert forall|i: int| 1 <= i < nodes@.len() implies has_edge(es, va[parent@[i] as int], #[trigger] va[i]) by {
                            if i < vb.len() {
                                assert(va[i] == vb[i]);
                                assert(parent@[i] == pb[i]);
                                assert(va[pb[i] as int] == vb[pb[i] as int]);
                            }
                        }
                        assert forall|i: int| 0 <= i < nodes@.len() implies ends.contains(#[trigger] va[i]) by {
                            if i < vb.len() {
                                assert(va[i] == vb[i]);
                            }
                        }
                        assert forall|i: int, p: Seq<Seq<char>>| 0 <= i < nodes@.len() && #[trigger] is_walk(es, p, from@, va[i])
                            implies dist[i] + 1 <= p.len() by {
                            if i < vb.len() {
                                assert(va[i] == vb[i]);
                            } else {
                                if p.len() <= d0 + 1 {
                                    if p.len() == 1 {
                                        assert(vb[0] == from@);
                                        assert(vb.contains(y@));
                                    } else {
                                        lemma_walk_drop_last(es, p, from@, y@);
                                        let w = p[p.len() - 2];
                                        assert(is_walk(es, p.drop_last(), from@, w));
                                        let i2 = choose|i2: int| 0 <= i2 < head && vb[i2] == w;
                                        if i2 < head {
                                            let k2 = choose|k2: int| 0 <= k2 < es.len() && (#[trigger] es[k2]).0 == w && es[k2].1 == y@;
                                            assert(es[k2].0 == vb[i2]);
                                            assert(vb.contains(es[k2].1));
                                        }
                                    }
                                }
                            }
                        }
                        assert forall|i: int, k2: int| 0 <= i < head && 0 <= k2 < es.len() && (#[trigger] es[k2]).0 == #[trigger] va[i]
                            implies va.contains(es[k2].1) by {
                            assert(va[i] == vb[i]);
                            assert(vb.contains(es[k2].1));
                            let j = choose|j: int| 0 <= j < vb.len() && vb[j] == es[k2].1;
                            assert(va[j] == vb[j]);
                        }
                        assert forall|k2: int| 0 <= k2 < k + 1 && (#[trigger] es[k2]).0 == cur@ implies va.contains(es[k2].1) by {
                            if k2 < k {
                                let j = choose|j: int| 0 <= j < vb.len() && vb[j] == es[k2].1;
                                assert(va[j] == vb[j]);
                            } else {
                                assert(va[vb.len() as int] == y@);
                            }
                        }
                        assert forall|p: Seq<Seq<char>>, x: Seq<char>|
                            #[trigger] is_walk(es, p, from@, x) && p.len() <= d0
                            implies exists|i: int| 0 <= i < head && va[i] == x by {
                            let i = choose|i: int| 0 <= i < head && vb[i] == x;
                            assert(va[i] == vb[i]);
                        }
                        assert forall|i: int| 0 <= i <= head implies va[i] != to@ by {
                            assert(va[i] == vb[i]);
                        }
                    }
                } else {
                    proof {
                        let va = id_views(nodes@);
                        assert forall|k2: int| 0 <= k2 < k + 1 && (#[trigger] es[k2]).0 == cur@ implies va.contains(es[k2].1) by {
                        }
                    }
                }
                k = k + 1;
            }
            proof {
                let va = id_views(nodes@);
                assert forall|i: int, k2: int| 0 <= i < head + 1 && 0 <= k2 < es.len() && (#[trigger] es[k2]).0 == #[trigger] va[i]
                    implies va.contains(es[k2].1) by {
                }
                if head + 1 < nodes@.len() {
                    assert forall|p: Seq<Seq<char>>, x: Seq<char>|
                        #[trigger] is_walk(es, p, from@, x) && p.len() <= dist[head + 1]
                        implies exists|i: int| 0 <= i < head + 1 && va[i] == x by {
                        assert(dist[head as int] <= dist[head + 1]);
                        if p.len() <= d0 {
                            let i = choose|i: int| 0 <= i < head && va[i] == x;
                        } else {
                            if p.len() == 1 {
                                assert(va[0] == x);
                            } else {
                                lemma_walk_drop_last(es, p, from@, x);
                                let w = p[p.len() - 2];
                                let i2 = choose|i2: int| 0 <= i2 < head && va[i2] == w;
                                let k2 = choose|k2: int| 0 <= k2 < es.len() && (#[trigger] es[k2]).0 == w && es[k2].1 == x;
                                assert(es[k2].0 == va[i2]);
                                assert(va.contains(x));
                                let j = choose|j: int| 0 <= j < va.len() && va[j] == x;
                                assert(is_walk(es, p, from@, va[j]));
                                assert(dist[j] + 1 <= p.len());
                                if j >= head + 1 {
                                    assert(dist[head + 1] <= dist[j]);
                                }
                            }
                        }
                    }
                }
                let all = ends;
                assert(all.len() == m + 1);
                lemma_distinct_within(va, all);
                assert(bfs(es, from@, (head + 1) as nat) == discover(es, st0.0[head as int], head as int, st0.0, st0.1, m as nat));
                assert(bfs_walk(es, from@, to@, head as nat, (m + 1 - head) as nat)
                    == bfs_walk(es, from@, to@, (head + 1) as nat, (m + 1 - (head + 1)) as nat));
            }
            head = head + 1;
        }
        proof {
            let va = id_views(nodes@);
            if connected(es, from@, to@) {
                let p = choose|p: Seq<Seq<char>>| #[trigger] is_walk(es, p, from@, to@);
                lemma_walk_within(es, from@, va, p, p.len() - 1);
                let j = choose|j: int| 0 <= j < va.len() && va[j] == p[p.len() - 1];
                assert(va[j] != to@);
            }
        }
        Vec::new()
    }

    /// Follows the parent links from `nodes[h]` back to `nodes[0]` and returns the walk in
    /// forward order.
    fn trace_back(
        &self,
        nodes: &Vec<ConceptId>,
        parent: &Vec<usize>,
        h: usize,
        Ghost(dist): Ghost<Seq<int>>,
        Ghost(from): Ghost<Seq<char>>,
    ) -> (r: Vec<ConceptId>)
        requires
            h < nodes@.len(),
            id_views(nodes@)[0] == from,
            parent@.len() == nodes@.len(),
            dist.len() == nodes@.len(),
            dist[0] == 0,
            forall|i: int| 1 <= i < nodes@.len() ==> #[trigger] parent@[i] < i,
            forall|i: int| 1 <= i < nodes@.len() ==> #[trigger] dist[i] == dist[parent@[i] as int] + 1,
            forall|i: int| 1 <= i < nodes@.len() ==> has_edge(self.links(), id_views(nodes@)[parent@[i] as int], #[trigger] id_views(nodes@)[i]),
        ensures
            is_walk(self.links(), id_views(r@), from, id_views(nodes@)[h as int]),
            r@.len() == dist[h as int] + 1,
            id_views(r@) == trace(id_views(nodes@), positions(parent@), h as int),
    {
        let ghost pv = positions(parent@);
        let ghost full = trace(id_views(nodes@), pv, h as int);
        let ghost es = self.links();
        let ghost vs = id_views(nodes@);
        let mut back: Vec<ConceptId> = Vec::new();
        back.push(nodes[h].duplicate());
        let mut c: usize = h;
        while c != 0
            invariant
                es == self.links(),
                vs == id_views(nodes@),
                h < nodes@.len(),
                c < nodes@.len(),
                parent@.len() == nodes@.len(),
                dist.len() == nodes@.len(),
                dist[0] == 0,
                forall|i: int| 1 <= i < nodes@.len() ==> #[trigger] parent@[i] < i,
                forall|i: int| 1 <= i < nodes@.len() ==> #[trigger] dist[i] == dist[parent@[i] as int] + 1,
                forall|i: int| 1 <= i < nodes@.len() ==> has_edge(es, vs[parent@[i] as int], #[trigger] vs[i]),
                back@.len() >= 1,
                id_views(back@)[0] == vs[h as int],
                id_views(back@).last() == vs[c as int],
                back@.len() == dist[h as int] - dist[c as int] + 1,
                forall|i: int| 0 <= i < back@.len() - 1 ==> #[trigger] back_step(es, id_views(back@), i),
                pv == positions(parent@),
                full == trace(vs, pv, h as int),
                full.take(trace(vs, pv, c as int).len() as int) == trace(vs, pv, c as int),
                back@.len() == full.len() - trace(vs, pv, c as int).len() + 1,
                forall|i: int| 0 <= i < back@.len() ==> #[trigger] id_views(back@)[i] == full[full.len() - 1 - i],
            decreases c,
        {
            let ghost bb = id_views(back@);
            let ghost c0 = c;
            c = parent[c];
            back.push(nodes[c].duplicate());
            proof {
                let ba = id_views(back@);
                assert(ba =~= bb.push(vs[c as int]));
                assert(pv[c0 as int] == c as int);
                let tc = trace(vs, pv, c as int);
                let tc0 = trace(vs, pv, c0 as int);
                assert(tc0 == tc.push(vs[c0 as int]));
                assert(full.take(tc.len() as int) =~= tc) by {
                    assert forall|i: int| 0 <= i < tc.len() implies full[i] == tc[i] by {
                        assert(full.take(tc0.len() as int)[i] == tc0[i]);
                    }
                }
                assert(tc.len() >= 1);
                assert(tc[tc.len() - 1] == vs[c as int]);
                assert(full[tc.len() - 1] == vs[c as int]) by {
                    assert(full.take(tc0.len() as int)[tc.len() - 1] == tc0[tc.len() - 1]);
                }
                assert(has_edge(es, vs[parent@[c0 as int] as int], vs[c0 as int]));
                assert forall|i: int| 0 <= i < back@.len() - 1 implies #[trigger] back_step(es, ba, i) by {
                    if i < bb.len() - 1 {
                        assert(back_step(es, bb, i));
                    }
                }
            }
        }
        proof {
            assert(trace(vs, pv, 0).len() == 1);
        }
        let len = back.len();
        let mut r: Vec<ConceptId> = Vec::new();
        let mut j: usize = len;
        while j > 0
            invariant
                es == self.links(),
                len == back@.len(),
                len >= 1,
                len == full.len(),
                forall|i: int| 0 <= i < len ==> #[trigger] id_views(back@)[i] == full[full.len() - 1 - i],
                0 <= j <= len,
                r@.len() == len - j,
                forall|i: int| 0 <= i < r@.len() ==> #[trigger] id_views(r@)[i] == id_views(back@)[len - 1 - i],
            decreases j,
        {
            j = j - 1;
            let ghost rb = id_views(r@);
            r.push(back[j].duplicate());
            proof {
                assert(id_views(r@) =~= rb.push(id_views(back@)[j as int]));
                assert(id_views(r@)[len - 1 - j] == id_views(back@)[j as int]);
            }
        }
        proof {
            let rv = id_views(r@);
            let bv = id_views(back@);
            assert(rv[0] == bv[len - 1]);
            assert(rv.last() == bv[0]);
            assert forall|i: int| 0 <= i < rv.len() - 1 implies #[trigger] walk_step(es, rv, i) by {
                assert(back_step(es, bv, len - 2 - i));
                assert(rv[i] == bv[len - 1 - i]);
                assert(rv[i + 1] == bv[len - 2 - i]);
            }
            assert forall|i: int| 0 <= i < len implies rv[i] == full[i] by {
                assert(rv[i] == bv[len - 1 - i]);
            }
            assert(rv =~= full);
        }
        r
    }
}

/// Every element of a walk from `from` lies in a set that holds `from` and every target of
/// an edge from one of its elements.
proof fn lemma_walk_within(es: Seq<(Seq<char>, Seq<char>)>, from: Seq<char>, vs: Seq<Seq<char>>, p: Seq<Seq<char>>, k: int)
    requires
        vs.len() >= 1,
        vs[0] == from,
        p.len() >= 1,
        p[0] == from,
        forall|i: int| 0 <= i < p.len() - 1 ==> #[trigger] walk_step(es, p, i),
        forall|i: int, k2: int| 0 <= i < vs.len() && 0 <= k2 < es.len() && (#[trigger] es[k2]).0 == #[trigger] vs[i]
            ==> vs.contains(es[k2].1),
        0 <= k < p.len(),
    ensures
        vs.contains(p[k]),
    decreases k,
{
    if k == 0 {
        assert(vs[0] == p[0]);
    } else {
        lemma_walk_within(es, from, vs, p, k - 1);
        assert(walk_step(es, p, k - 1));
        let k2 = choose|k2: int| 0 <= k2 < es.len() && (#[trigger] es[k2]).0 == p[k - 1] && es[k2].1 == p[k];
        let i = choose|i: int| 0 <= i < vs.len() && vs[i] == p[k - 1];
        assert(es[k2].0 == vs[i]);
    }
}

} // verus!
