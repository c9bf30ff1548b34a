//! Topological sort of the graph (Kahn's algorithm): a valid learning order.
use vstd::prelude::*;
use crate::concept::{Concept, ConceptId};
use crate::graph::{PrereqGraph, id_views};
use crate::lemmas::lemma_distinct_within;
use crate::store::{distinct_ids, has_id};

verus! {

/// The number of edges of `es` into `t` whose source is not among `done`.
pub open spec fn open_in(es: Seq<(Seq<char>, Seq<char>)>, t: Seq<char>, done: Seq<Seq<char>>) -> nat
    decreases es.len(),
{
    if es.len() == 0 {
        0
    } else {
        open_in(es.drop_last(), t, done) + if es.last().1 == t && !done.contains(es.last().0) {
            1nat
        } else {
            0nat
        }
    }
}

/// The number of edges of `es` from `s` into `t`.
pub open spec fn edges_between(es: Seq<(Seq<char>, Seq<char>)>, s: Seq<char>, t: Seq<char>) -> nat
    decreases es.len(),
{
    if es.len() == 0 {
        0
    } else {
        edges_between(es.drop_last(), s, t) + if es.last().0 == s && es.last().1 == t {
            1nat
        } else {
            0nat
        }
    }
}

/// Every edge into an element of `order` comes from an element placed before it.
pub open spec fn respects_edges(es: Seq<(Seq<char>, Seq<char>)>, order: Seq<Seq<char>>) -> bool {
    forall|i: int, k: int| 0 <= i < order.len() && 0 <= k < es.len() && (#[trigger] es[k]).1 == #[trigger] order[i]
        ==> exists|i2: int| 0 <= i2 < i && order[i2] == es[k].0
}

/// Every concept whose incoming edges all come from elements of `order` is in `order`.
pub open spec fn leaves_out_only_blocked(cs: Seq<Concept>, es: Seq<(Seq<char>, Seq<char>)>, order: Seq<Seq<char>>) -> bool {
    forall|x: Seq<char>| #[trigger] has_id(cs, x)
        && (forall|k: int| 0 <= k < es.len() && (#[trigger] es[k]).1 == x ==> order.contains(es[k].0))
        ==> order.contains(x)
}

/// `order` is a topological order of the graph: distinct concepts, each after the sources
/// of all edges into it, and holding every concept that is not blocked by an edge from
/// outside the order (a cycle or a source that is not a concept).
pub open spec fn is_topological_order(cs: Seq<Concept>, es: Seq<(Seq<char>, Seq<char>)>, order: Seq<Seq<char>>) -> bool {
    &&& order.no_duplicates()
    &&& forall|i: int| 0 <= i < order.len() ==> has_id(cs, #[trigger] order[i])
    &&& respects_edges(es, order)
    &&& leaves_out_only_blocked(cs, es, order)
}

/// The identifiers of the first `h` queued positions.
pub open spec fn queued_ids(cs: Seq<Concept>, q: Seq<usize>, h: int) -> Seq<Seq<char>> {
    Seq::new(h as nat, |i: int| cs[q[i] as int].id@)
}

proof fn lemma_open_in_bound(es: Seq<(Seq<char>, Seq<char>)>, t: Seq<char>, done: Seq<Seq<char>>)
    ensures
        open_in(es, t, done) <= es.len(),
    decreases es.len(),
{
    if es.len() > 0 {
        lemma_open_in_bound(es.drop_last(), t, done);
    }
}

/// No open edge into `t` means every edge into `t` comes from `done`; some open edge
/// otherwise.
proof fn lemma_open_in_zero(es: Seq<(Seq<char>, Seq<char>)>, t: Seq<char>, done: Seq<Seq<char>>)
    ensures
        open_in(es, t, done) == 0 <==> forall|k: int| 0 <= k < es.len() && (#[trigger] es[k]).1 == t ==> done.contains(es[k].0),
    decreases es.len(),
{
    if es.len() > 0 {
        let es0 = es.drop_last();
        lemma_open_in_zero(es0, t, done);
        if open_in(es, t, done) == 0 {
            assert forall|k: int| 0 <= k < es.len() && (#[trigger] es[k]).1 == t implies done.contains(es[k].0) by {
                if k < es.len() - 1 {
                    assert(es0[k] == es[k]);
                }
            }
        } else {
            if open_in(es0, t, done) == 0 {
                assert(es[es.len() - 1] == es.last());
            } else {
                let k = choose|k: int| !(0 <= k < es0.len() && (#[trigger] es0[k]).1 == t ==> done.contains(es0[k].0));
                assert(es[k] == es0[k]);
            }
        }
    }
}

/// Marking `s` done removes exactly the edges from `s`.
proof fn lemma_open_in_mark(es: Seq<(Seq<char>, Seq<char>)>, t: Seq<char>, done: Seq<Seq<char>>, s: Seq<char>)
    requires
        !done.contains(s),
    ensures
        open_in(es, t, done) == open_in(es, t, done.push(s)) + edges_between(es, s, t),
    decreases es.len(),
{
    if es.len() > 0 {
        lemma_open_in_mark(es.drop_last(), t, done, s);
        let e = es.last();
        assert(done.push(s).contains(e.0) <==> done.contains(e.0) || e.0 == s) by {
            if done.push(s).contains(e.0) {
                let i = choose|i: int| 0 <= i < done.push(s).len() && done.push(s)[i] == e.0;
                if i < done.len() {
                    assert(done[i] == e.0);
                }
            }
            if done.contains(e.0) {
                let i = choose|i: int| 0 <= i < done.len() && done[i] == e.0;
                assert(done.push(s)[i] == e.0);
            }
            if e.0 == s {
                assert(done.push(s)[done.len() as int] == e.0);
            }
        }
    }
}

proof fn lemma_edges_between_prefix(es: Seq<(Seq<char>, Seq<char>)>, s: Seq<char>, t: Seq<char>, k: int)
    requires
        0 <= k <= es.len(),
    ensures
        edges_between(es.take(k), s, t) <= edges_between(es, s, t),
    decreases es.len(),
{
    if k < es.len() {
        assert(es.take(k) =~= es.drop_last().take(k));
        lemma_edges_between_prefix(es.drop_last(), s, t, k);
    } else {
        assert(es.take(k) =~= es);
    }
}

impl PrereqGraph {
    /// Topological sort: a valid learning order of the concepts. Concepts on a cycle, or
    /// after an edge whose source is not a concept, are left out.
    pub fn topological_sort(&self) -> (r: Vec<ConceptId>)
        ensures
            is_topological_order(self.nodes(), self.links(), id_views(r@)),
    {
        let ghost cs = self.nodes();
        let ghost es = self.links();
        let n = self.concepts.len();
        let m = self.edges.len();

        // In-degree of each concept, counting every edge into it.
        let mut deg: Vec<usize> = Vec::new();
        let mut j: usize = 0;
        while j < n
            invariant
                0 <= j <= n,
                deg@.len() == j,
                forall|i: int| 0 <= i < j ==> deg@[i] == 0,
            decreases n - j,
        {
            deg.push(0);
            j = j + 1;
        }
        let ghost none: Seq<Seq<char>> = Seq::empty();
        let mut k: usize = 0;
        while k < m
            invariant
                cs == self.nodes(),
                es == self.links(),
                n == cs.len(),
                m == es.len(),
                distinct_ids(cs),
                none == Seq::<Seq<char>>::empty(),
                0 <= k <= m,
                deg@.len() == n,
                forall|i: int| 0 <= i < n ==> #[trigger] deg@[i] == open_in(es.take(k as int), cs[i].id@, none),
            decreases m - k,
        {
            assert(es.take(k + 1).drop_last() =~= es.take(k as int));
            assert(es[k as int] == (self.edges@[k as int].0@, self.edges@[k as int].1@));
            let found = self.concepts.find(&self.edges[k].1);
            match found {
                Some(t) => {
                    proof {
                        lemma_open_in_bound(es.take(k as int), cs[t as int].id@, none);
                    }
                    let d = deg[t];
                    deg.set(t, d + 1);
                },
                None => {},
            }
            assert forall|i: int| 0 <= i < n implies #[trigger] deg@[i] == open_in(es.take(k + 1), cs[i].id@, none) by {
                assert(!none.contains(es[k as int].0));
            }
            k = k + 1;
        }
        assert(es.take(m as int) =~= es);

        // Start from the concepts with no incoming edge, in map order.
        let mut queue: Vec<usize> = Vec::new();
        let mut j: usize = 0;
        while j < n
            invariant
                cs == self.nodes(),
                es == self.links(),
                n == cs.len(),
                0 <= j <= n,
                none == Seq::<Seq<char>>::empty(),
                deg@.len() == n,
                forall|i: int| 0 <= i < n ==> #[trigger] deg@[i] == open_in(es, cs[i].id@, none),
                queue@.no_duplicates(),
                forall|p: int| 0 <= p < queue@.len() ==> #[trigger] queue@[p] < j,
                forall|i: int| 0 <= i < j ==> (queue@.contains(i as usize) <==> #[trigger] deg@[i] == 0),
            decreases n - j,
        {
            if deg[j] == 0 {
                let ghost qb = queue@;
                queue.push(j);
                proof {
                    assert forall|i: int| 0 <= i < j implies (queue@.contains(i as usize) <==> #[trigger] deg@[i] == 0) by {
                        if queue@.contains(i as usize) {
                            let p = choose|p: int| 0 <= p < queue@.len() && queue@[p] == i as usize;
                            if p < qb.len() {
                                assert(qb[p] == i as usize);
                            }
                        }
                        if qb.contains(i as usize) {
                            let p = choose|p: int| 0 <= p < qb.len() && qb[p] == i as usize;
                            assert(queue@[p] == i as usize);
                        }
                    }
                    assert(queue@[qb.len() as int] == j);
                    assert(queue@.no_duplicates()) by {
                        assert forall|a: int, b: int| 0 <= a < queue@.len() && 0 <= b < queue@.len() && a != b
                            implies queue@[a] != queue@[b] by {
                            if a < qb.len() && b < qb.len() {
                                assert(queue@[a] == qb[a] && queue@[b] == qb[b]);
                            } else if a < qb.len() {
                                assert(queue@[a] == qb[a]);
                            } else if b < qb.len() {
                                assert(queue@[b] == qb[b]);
                            }
                        }
                    }
                }
            } else {
                proof {
                    assert(!queue@.contains(j as usize)) by {
                        if queue@.contains(j as usize) {
                            let p = choose|p: int| 0 <= p < queue@.len() && queue@[p] == j as usize;
                        }
                    }
                }
            }
            j = j + 1;
        }
        proof {
            assert forall|p: int, k2: int| 0 <= p < queue@.len() && 0 <= k2 < es.len()
                && (#[trigger] es[k2]).1 == cs[#[trigger] queue@[p] as int].id@
                implies queued_ids(cs, queue@, p).contains(es[k2].0) by {
                let t = queue@[p] as int;
                assert(queue@.contains(t as usize));
                assert(deg@[t] == 0);
                assert(deg@[t] == open_in(es, cs[t].id@, none));
                lemma_open_in_zero(es, cs[t].id@, none);
                assert(none.contains(es[k2].0));
            }
            assert(queued_ids(cs, queue@, 0) =~= none);
        }

        let mut result: Vec<ConceptId> = Vec::new();
        let mut head: usize = 0;
        while head < queue.len()
            invariant
                cs == self.nodes(),
                es == self.links(),
                n == cs.len(),
                m == es.len(),
                m == self.edges@.len(),
                distinct_ids(cs),
                deg@.len() == n,
                0 <= head <= queue@.len(),
                queue@.no_duplicates(),
                forall|p: int| 0 <= p < queue@.len() ==> #[trigger] queue@[p] < n,
                forall|i: int| 0 <= i < n ==> #[trigger] deg@[i] == open_in(es, cs[i].id@, queued_ids(cs, queue@, head as int)),
                forall|i: int| 0 <= i < n ==> (queue@.contains(i as usize) <==> #[trigger] deg@[i] == 0),
                forall|p: int, k2: int| 0 <= p < queue@.len() && 0 <= k2 < es.len()
                    && (#[trigger] es[k2]).1 == cs[#[trigger] queue@[p] as int].id@
                    ==> queued_ids(cs, queue@, p).contains(es[k2].0),
                id_views(result@) == queued_ids(cs, queue@, head as int),
            decreases n - head,
        {
            let v = queue[head];
            let vid = &self.concepts.at(v).id;
            let ghost sv = cs[v as int].id@;
            let ghost done = queued_ids(cs, queue@, head as int);
            let ghost q0 = queue@;
            let ghost rb = id_views(result@);
            result.push(vid.duplicate());
            assert(id_views(result@) =~= rb.push(sv));
            assert(!done.contains(sv)) by {
                if done.contains(sv) {
                    let p = choose|p: int| 0 <= p < done.len() && done[p] == sv;
                    assert(cs[queue@[p] as int].id@ == sv);
                    assert(queue@[p] == v);
                }
            }
            proof {
                assert forall|i: int| 0 <= i < n implies #[trigger] open_in(es, cs[i].id@, done)
                    == open_in(es, cs[i].id@, done.push(sv)) + edges_between(es, sv, cs[i].id@) by {
                    lemma_open_in_mark(es, cs[i].id@, done, sv);
                }
            }
            let mut k: usize = 0;
            while k < m
                invariant
                    cs == self.nodes(),
                    es == self.links(),
                    n == cs.len(),
                    m == es.len(),
                    m == self.edges@.len(),
                    distinct_ids(cs),
                    deg@.len() == n,
                    0 <= k <= m,
                    v < n,
                    head < queue@.len(),
                    sv == cs[v as int].id@,
                    *vid == cs[v as int].id,
                    done == queued_ids(cs, queue@, head as int),
                    !done.contains(sv),
                    queue@.len() >= q0.len(),
                    q0.len() > head,
                    queue@.take(q0.len() as int) == q0,
                    q0[head as int] == v,
                    queue@.no_duplicates(),
                    forall|p: int| 0 <= p < queue@.len() ==> #[trigger] queue@[p] < n,
                    forall|i: int| 0 <= i < n ==> #[trigger] open_in(es, cs[i].id@, done)
                        == open_in(es, cs[i].id@, done.push(sv)) + edges_between(es, sv, cs[i].id@),
                    forall|i: int| 0 <= i < n ==> #[trigger] deg@[i] + edges_between(es.take(k as int), sv, cs[i].id@)
                        == open_in(es, cs[i].id@, done),
                    forall|i: int| 0 <= i < n ==> (queue@.contains(i as usize) <==> #[trigger] deg@[i] == 0),
                    forall|p: int, k2: int| 0 <= p < queue@.len() && 0 <= k2 < es.len()
                        && (#[trigger] es[k2]).1 == cs[#[trigger] queue@[p] as int].id@
                        ==> queued_ids(cs, queue@, p).contains(es[k2].0),
                decreases m - k,
            {
                assert(es.take(k + 1).drop_last() =~= es.take(k as int));
                assert(es[k as int] == (self.edges@[k as int].0@, self.edges@[k as int].1@));
                if self.edges[k].0.same(vid) {
                    let found = self.concepts.find(&self.edges[k].1);
                    match found {
                        Some(t) => {
                            let ghost tid = cs[t as int].id@;
                            proof {
                                lemma_edges_between_prefix(es, sv, tid, k + 1);
                            }
                            let d = deg[t];
                            deg.set(t, d - 1);
                            if d - 1 == 0 {
                                let ghost qb = queue@;
                                queue.push(t);
                                proof {
                                    lemma_open_in_zero(es, tid, done.push(sv));
                                    assert(queued_ids(cs, queue@, head + 1) =~= done.push(sv)) by {
                                        assert(queue@[head as int] == q0[head as int]);
                                        assert forall|p: int| 0 <= p < head implies queue@[p] == q0[p] by {
                                            assert(queue@.take(q0.len() as int)[p] == q0[p]);
                                        }
                                    }
                                    assert(!qb.contains(t)) by {
                                        assert(deg@[t as int] + 1 != 0);
                                    }
                                    assert(queue@.no_duplicates()) by {
                                        assert forall|a: int, b: int| 0 <= a < queue@.len() && 0 <= b < queue@.len() && a != b
                                            implies queue@[a] != queue@[b] by {
                                            if a < qb.len() && b < qb.len() {
                                                assert(queue@[a] == qb[a] && queue@[b] == qb[b]);
                                            } else if a < qb.len() {
                                                assert(queue@[a] == qb[a]);
                                                assert(qb.contains(queue@[a]));
                                            } else if b < qb.len() {
                                                assert(queue@[b] == qb[b]);
                                                assert(qb.contains(queue@[b]));
                                            }
                                        }
                                    }
                                    assert forall|i: int| 0 <= i < n implies (queue@.contains(i as usize) <==> #[trigger] deg@[i] == 0) by {
                                        if queue@.contains(i as usize) {
                                            let p = choose|p: int| 0 <= p < queue@.len() && queue@[p] == i as usize;
                                            if p < qb.len() {
                                                assert(qb.contains(i as usize));
                                            }
                                        }
                                        if i != t && qb.contains(i as usize) {
                                            let p = choose|p: int| 0 <= p < qb.len() && qb[p] == i as usize;
                                            assert(queue@[p] == i as usize);
                                        }
                                        if i == t {
                                            assert(queue@[qb.len() as int] == t);
                                        }
                                    }
                                    assert(queue@.take(q0.len() as int) =~= q0) by {
                                        assert forall|p: int| 0 <= p < q0.len() implies queue@[p] == q0[p] by {
                                            assert(qb.take(q0.len() as int)[p] == q0[p]);
                                        }
                                    }
                                    assert forall|p: int, k2: int| 0 <= p < queue@.len() && 0 <= k2 < es.len()
                                        && (#[trigger] es[k2]).1 == cs[#[trigger] queue@[p] as int].id@
                                        implies queued_ids(cs, queue@, p).contains(es[k2].0) by {
                                        if p < qb.len() {
                                            assert(queue@[p] == qb[p]);
                                            assert(queued_ids(cs, qb, p).contains(es[k2].0));
                                            let w = choose|w: int| 0 <= w < p && queued_ids(cs, qb, p)[w] == es[k2].0;
                                            assert(queued_ids(cs, queue@, p)[w] == es[k2].0);
                                        } else {
                                            assert(queue@[p] == t);
                                            assert(done.push(sv).contains(es[k2].0));
                                            let w = choose|w: int| 0 <= w < head + 1 && done.push(sv)[w] == es[k2].0;
                                            assert(queued_ids(cs, queue@, head + 1)[w] == es[k2].0);
                                            assert(queued_ids(cs, queue@, p)[w] == es[k2].0);
                                        }
                                    }
                                }
                            } else {
                                proof {
                                    assert forall|i: int| 0 <= i < n implies (queue@.contains(i as usize) <==> #[trigger] deg@[i] == 0) by {
                                        if i == t {
                                            assert(!queue@.contains(t)) by {
                                                assert(d != 0);
                                            }
                                        }
                                    }
                                }
                            }
                            proof {
                                assert forall|i: int| 0 <= i < n implies #[trigger] deg@[i] + edges_between(es.take(k + 1), sv, cs[i].id@)
                                    == open_in(es, cs[i].id@, done) by {
                                    if i != t {
                                        assert(cs[i].id@ != tid);
                                    }
                                }
                                assert(done == queued_ids(cs, queue@, head as int)) by {
                                    assert(queued_ids(cs, queue@, head as int) =~= done) by {
                                        assert forall|p: int| 0 <= p < head implies queue@[p] == q0[p] by {
                                            assert(queue@.take(q0.len() as int)[p] == q0[p]);
                                        }
                                    }
                                }
                            }
                        },
                        None => {
                            proof {
                                assert forall|i: int| 0 <= i < n implies #[trigger] deg@[i] + edges_between(es.take(k + 1), sv, cs[i].id@)
                                    == open_in(es, cs[i].id@, done) by {
                                    assert(es[k as int].1 != cs[i].id@);
                                }
                            }
                        },
                    }
                } else {
                    proof {
                        assert forall|i: int| 0 <= i < n implies #[trigger] deg@[i] + edges_between(es.take(k + 1), sv, cs[i].id@)
                            == open_in(es, cs[i].id@, done) by {
                        }
                    }
                }
                k = k + 1;
            }
            proof {
                assert(es.take(m as int) =~= es);
                assert(queued_ids(cs, queue@, head + 1) =~= done.push(sv)) by {
                    assert(queue@[head as int] == q0[head as int]);
                    assert forall|p: int| 0 <= p < head implies queue@[p] == q0[p] by {
                        assert(queue@.take(q0.len() as int)[p] == q0[p]);
                    }
                }
                let idx = Seq::new(n as nat, |i: int| i as usize);
                assert forall|p: int| 0 <= p < queue@.len() implies idx.contains(#[trigger] queue@[p]) by {
                    assert(idx[queue@[p] as int] == queue@[p]);
                }
                lemma_distinct_within(queue@, idx);
            }
            head = head + 1;
        }

        proof {
            let order = id_views(result@);
            assert(order =~= queued_ids(cs, queue@, queue@.len() as int));
            assert(order.no_duplicates()) by {
                assert forall|a: int, b: int| 0 <= a < order.len() && 0 <= b < order.len() && a != b
                    implies order[a] != order[b] by {
                    assert(queue@[a] != queue@[b]);
                    assert(cs[queue@[a] as int].id@ != cs[queue@[b] as int].id@);
                }
            }
            assert forall|i: int| 0 <= i < order.len() implies has_id(cs, #[trigger] order[i]) by {
                assert(cs[queue@[i] as int].id@ == order[i]);
            }
            assert forall|i: int, k2: int| 0 <= i < order.len() && 0 <= k2 < es.len() && (#[trigger] es[k2]).1 == #[trigger] order[i]
                implies exists|i2: int| 0 <= i2 < i && order[i2] == es[k2].0 by {
                assert(es[k2].1 == cs[queue@[i] as int].id@);
                assert(queued_ids(cs, queue@, i).contains(es[k2].0));
                let w = choose|w: int| 0 <= w < i && queued_ids(cs, queue@, i)[w] == es[k2].0;
                assert(order[w] == es[k2].0);
            }
            assert forall|x: Seq<char>| #[trigger] has_id(cs, x)
                && (forall|k2: int| 0 <= k2 < es.len() && (#[trigger] es[k2]).1 == x ==> order.contains(es[k2].0))
                implies order.contains(x) by {
                let i = choose|i: int| 0 <= i < cs.len() && (#[trigger] cs[i]).id@ == x;
                lemma_open_in_zero(es, x, order);
                assert(deg@[i] == 0);
                assert(queue@.contains(i as usize));
                let p = choose|p: int| 0 <= p < queue@.len() && queue@[p] == i as usize;
                assert(order[p] == x);
            }
        }
        result
    }
}

} // verus!
