//! A learning path from what is already learned to a target concept.
use vstd::prelude::*;
use crate::closure::{chain_step, prereq_chain};
use crate::concept::{Concept, ConceptId};
use crate::graph::{PrereqGraph, contains_id, derefs, id_views, is_prereq, lemma_prereq_seq, prereq_seq};
use crate::lemmas::lemma_distinct_within;
use crate::store::{distinct_ids, has_id, ids_of, lookup};
use crate::topo::is_topological_order;

verus! {

/// `x` is reached from `target` through a chain of prerequisites whose elements before
/// `x` are all unlearned (`x` may be `target` itself).
pub open spec fn via_unlearned(
    cs: Seq<Concept>,
    es: Seq<(Seq<char>, Seq<char>)>,
    learned: Seq<Seq<char>>,
    target: Seq<char>,
    x: Seq<char>,
) -> bool {
    exists|p: Seq<Seq<char>>|
        #[trigger] prereq_chain(cs, es, p) && p.len() >= 1 && p[0] == target && p.last() == x
            && forall|i: int| 0 <= i < p.len() - 1 ==> !learned.contains(#[trigger] p[i])
}

/// `x` still has to be learned to reach `target`: it is unlearned and reached from `target`
/// through unlearned prerequisites.
pub open spec fn needed_for(
    cs: Seq<Concept>,
    es: Seq<(Seq<char>, Seq<char>)>,
    learned: Seq<Seq<char>>,
    target: Seq<char>,
    x: Seq<char>,
) -> bool {
    &&& !learned.contains(x)
    &&& via_unlearned(cs, es, learned, target, x)
}

/// `needed_for` as a predicate on identifiers.
pub open spec fn needed_pred(
    cs: Seq<Concept>,
    es: Seq<(Seq<char>, Seq<char>)>,
    learned: Seq<Seq<char>>,
    target: Seq<char>,
) -> spec_fn(Seq<char>) -> bool {
    |x: Seq<char>| needed_for(cs, es, learned, target, x)
}

/// The sum of the difficulties of the concepts named in `s` (names that are not concepts
/// count nothing).
pub open spec fn difficulty_sum(cs: Seq<Concept>, s: Seq<Seq<char>>) -> nat
    decreases s.len(),
{
    if s.len() == 0 {
        0
    } else {
        difficulty_sum(cs, s.drop_last()) + if has_id(cs, s.last()) {
            lookup(cs, s.last()).difficulty as nat
        } else {
            0nat
        }
    }
}

proof fn lemma_difficulty_sum_prefix(cs: Seq<Concept>, s: Seq<Seq<char>>, k: int)
    requires
        0 <= k <= s.len(),
    ensures
        difficulty_sum(cs, s.take(k)) <= difficulty_sum(cs, s),
    decreases s.len(),
{
    if k < s.len() {
        assert(s.take(k) =~= s.drop_last().take(k));
        lemma_difficulty_sum_prefix(cs, s.drop_last(), k);
    } else {
        assert(s.take(k) =~= s);
    }
}

/// A direct prerequisite of an unlearned concept reached through unlearned prerequisites is
/// reached the same way.
pub proof fn lemma_via_unlearned_step(
    cs: Seq<Concept>,
    es: Seq<(Seq<char>, Seq<char>)>,
    learned: Seq<Seq<char>>,
    target: Seq<char>,
    c: Seq<char>,
    u: Seq<char>,
)
    requires
        via_unlearned(cs, es, learned, target, c),
        !learned.contains(c),
        is_prereq(cs, es, c, u),
    ensures
        via_unlearned(cs, es, learned, target, u),
{
    let q = choose|q: Seq<Seq<char>>|
        #[trigger] prereq_chain(cs, es, q) && q.len() >= 1 && q[0] == target && q.last() == c
            && forall|i: int| 0 <= i < q.len() - 1 ==> !learned.contains(#[trigger] q[i]);
    let p = q.push(u);
    assert forall|i: int| 0 <= i < p.len() - 1 implies #[trigger] chain_step(cs, es, p, i) by {
        if i < q.len() - 1 {
            assert(chain_step(cs, es, q, i));
        }
    }
    assert forall|i: int| 0 <= i < p.len() - 1 implies !learned.contains(#[trigger] p[i]) by {
        if i < q.len() - 1 {
            assert(p[i] == q[i]);
        }
    }
    assert(prereq_chain(cs, es, p));
}

/// Every element of an unlearned chain from `vs[0]` lies in `vs` when `vs` holds the direct
/// prerequisites of each of its unlearned elements.
proof fn lemma_unlearned_chain_within(
    cs: Seq<Concept>,
    es: Seq<(Seq<char>, Seq<char>)>,
    learned: Seq<Seq<char>>,
    vs: Seq<Seq<char>>,
    p: Seq<Seq<char>>,
    k: int,
)
    requires
        vs.len() >= 1,
        prereq_chain(cs, es, p),
        p.len() >= 1,
        p[0] == vs[0],
        forall|i: int| 0 <= i < p.len() - 1 ==> !learned.contains(#[trigger] p[i]),
        forall|i: int, u: Seq<char>| 0 <= i < vs.len() && !learned.contains(vs[i])
            && #[trigger] is_prereq(cs, es, vs[i], u) ==> vs.contains(u),
        0 <= k < p.len(),
    ensures
        vs.contains(p[k]),
    decreases k,
{
    if k == 0 {
        assert(vs[0] == p[0]);
    } else {
        lemma_unlearned_chain_within(cs, es, learned, vs, p, k - 1);
        assert(chain_step(cs, es, p, k - 1));
        let i = choose|i: int| 0 <= i < vs.len() && vs[i] == p[k - 1];
        assert(!learned.contains(p[k - 1]));
        assert(is_prereq(cs, es, vs[i], p[k]));
    }
}

/// A computed learning path from current knowledge to a target.
pub struct LearningPath {
    pub steps: Vec<ConceptId>,
    pub total_difficulty: u32,
    pub estimated_ticks: u64,
}

impl LearningPath {
    /// Compute a learning path from `learned` to `target` in the given graph: the concepts
    /// still needed for `target`, in a topological order of the graph, with their total
    /// difficulty and ten ticks per point of difficulty. `None` when `target` is not a
    /// concept of the graph.
    pub fn from_graph(graph: &PrereqGraph, learned: &[ConceptId], target: &ConceptId) -> (r: Option<LearningPath>)
        requires
            has_id(graph.nodes(), target@) && !id_views(learned@).contains(target@) ==>
            forall|t: Seq<Seq<char>>| #[trigger] is_topological_order(graph.nodes(), graph.links(), t)
                ==> difficulty_sum(graph.nodes(), t.filter(needed_pred(graph.nodes(), graph.links(), id_views(learned@), target@)))
                <= u32::MAX,
        ensures
            r is None <==> !has_id(graph.nodes(), target@),
            r matches Some(lp) ==> {
                &&& lp.total_difficulty == difficulty_sum(graph.nodes(), id_views(lp.steps@))
                &&& lp.estimated_ticks == lp.total_difficulty * 10
                &&& id_views(learned@).contains(target@) ==> lp.steps@.len() == 0
                &&& !id_views(learned@).contains(target@) ==> exists|t: Seq<Seq<char>>|
                    #[trigger] is_topological_order(graph.nodes(), graph.links(), t)
                    && id_views(lp.steps@) == t.filter(needed_pred(graph.nodes(), graph.links(), id_views(learned@), target@))
            },
    {
        let ghost cs = graph.nodes();
        let ghost es = graph.links();
        let ghost lv = id_views(learned@);
        if !graph.concepts.contains_key(target) {
            return None;
        }
        if contains_id(learned, target) {
            let lp = LearningPath { steps: Vec::new(), total_difficulty: 0, estimated_ticks: 0 };
            assert(id_views(lp.steps@) =~= Seq::<Seq<char>>::empty());
            return Some(lp);
        }

        // Breadth-first search backwards from the target, stopping at learned concepts.
        let n = graph.concepts.len();
        let mut visited: Vec<ConceptId> = Vec::new();
        visited.push(target.duplicate());
        let mut needed: Vec<ConceptId> = Vec::new();
        let mut head: usize = 0;
        proof {
            let p = seq![target@];
            assert(prereq_chain(cs, es, p));
            assert(via_unlearned(cs, es, lv, target@, target@));
        }
        while head < visited.len()
            invariant
                cs == graph.nodes(),
                es == graph.links(),
                lv == id_views(learned@),
                distinct_ids(cs),
                n == cs.len(),
                has_id(cs, target@),
                !lv.contains(target@),
                id_views(visited@).len() >= 1,
                id_views(visited@)[0] == target@,
                id_views(visited@).no_duplicates(),
                0 <= head <= visited@.len(),
                forall|i: int| 0 <= i < visited@.len() ==> has_id(cs, #[trigger] id_views(visited@)[i]),
                forall|i: int| 0 <= i < visited@.len() ==> via_unlearned(cs, es, lv, target@, #[trigger] id_views(visited@)[i]),
                forall|i: int, u: Seq<char>| 0 <= i < head && !lv.contains(id_views(visited@)[i])
                    && #[trigger] is_prereq(cs, es, id_views(visited@)[i], u) ==> id_views(visited@).contains(u),
                forall|i: int| 0 <= i < head && !lv.contains(#[trigger] id_views(visited@)[i])
                    ==> id_views(needed@).contains(id_views(visited@)[i]),
                forall|i: int| 0 <= i < needed@.len() ==> needed_for(cs, es, lv, target@, #[trigger] id_views(needed@)[i]),
                needed@.len() >= 1 || head == 0,
            decreases n - head,
        {
            let c = visited[head].duplicate();
            let ghost hc = head;
            head = head + 1;
            if contains_id(learned, &c) {
                proof {
                    let vs = id_views(visited@);
                    assert forall|i: int, u: Seq<char>| 0 <= i < head && !lv.contains(vs[i])
                        && #[trigger] is_prereq(cs, es, vs[i], u) implies vs.contains(u) by {
                    }
                    assert forall|i: int| 0 <= i < head && !lv.contains(#[trigger] vs[i])
                        implies id_views(needed@).contains(vs[i]) by {
                    }
                    assert(hc != 0);
                    let idx = ids_of(cs);
                    assert forall|i: int| 0 <= i < vs.len() implies idx.contains(#[trigger] vs[i]) by {
                        let k = choose|k: int| 0 <= k < cs.len() && (#[trigger] cs[k]).id@ == vs[i];
                        assert(idx[k] == vs[i]);
                    }
                    lemma_distinct_within(vs, idx);
                }
                continue;
            }
            let ghost nb = id_views(needed@);
            needed.push(c.duplicate());
            proof {
                assert(id_views(needed@) =~= nb.push(c@));
            }
            let prs = graph.prerequisites_of(&c);
            proof {
                lemma_prereq_seq(cs, es, c@);
            }
            let ghost ps = derefs(prs@);
            let ghost v1 = id_views(visited@);
            assert(c@ == v1[hc as int]);
            assert(via_unlearned(cs, es, lv, target@, v1[hc as int]));
            let cnt = prs.len();
            let mut j: usize = 0;
            while j < cnt
                invariant
                    cs == graph.nodes(),
                    es == graph.links(),
                    lv == id_views(learned@),
                    distinct_ids(cs),
                    n == cs.len(),
                    has_id(cs, target@),
                    !lv.contains(c@),
                    c@ == v1[hc as int],
                    hc < v1.len(),
                    head == hc + 1,
                    cnt == prs@.len(),
                    ps == derefs(prs@),
                    ps == prereq_seq(cs, es, c@),
                    forall|k: int| 0 <= k < ps.len() ==> {
                        let pc = #[trigger] ps[k];
                        &&& has_id(cs, pc.id@)
                        &&& pc == lookup(cs, pc.id@)
                        &&& is_prereq(cs, es, c@, pc.id@)
                    },
                    forall|u: Seq<char>| #[trigger] is_prereq(cs, es, c@, u) ==>
                        exists|k: int| 0 <= k < ps.len() && (#[trigger] ps[k]).id@ == u,
                    via_unlearned(cs, es, lv, target@, c@),
                    0 <= j <= cnt,
                    visited@.len() >= v1.len(),
                    id_views(visited@).take(v1.len() as int) == v1,
                    id_views(visited@).no_duplicates(),
                    forall|i: int| 0 <= i < visited@.len() ==> has_id(cs, #[trigger] id_views(visited@)[i]),
                    forall|i: int| 0 <= i < visited@.len() ==> via_unlearned(cs, es, lv, target@, #[trigger] id_views(visited@)[i]),
                    forall|k: int| 0 <= k < j ==> id_views(visited@).contains((#[trigger] ps[k]).id@),
                decreases cnt - j,
            {
                let p: &Concept = prs[j];
                assert(*p == ps[j as int]);
                let ghost vb = id_views(visited@);
                if !contains_id(visited.as_slice(), &p.id) {
                    visited.push(p.id.duplicate());
                    proof {
                        let va = id_views(visited@);
                        assert(va =~= vb.push(p.id@));
                        lemma_via_unlearned_step(cs, es, lv, target@, c@, p.id@);
                        assert(va.no_duplicates()) by {
                            assert forall|a: int, b: int| 0 <= a < va.len() && 0 <= b < va.len() && a != b
                                implies va[a] != va[b] by {
                                if a < vb.len() && b < vb.len() {
                                } else if a < vb.len() {
                                    assert(vb.contains(va[a]));
                                } else {
                                    assert(vb.contains(va[b]));
                                }
                            }
                        }
                        assert(va.take(v1.len() as int) =~= v1) by {
                            assert forall|i: int| 0 <= i < v1.len() implies va[i] == v1[i] by {
                                assert(vb.take(v1.len() as int)[i] == v1[i]);
                            }
                        }
                        assert forall|k: int| 0 <= k < j + 1 implies va.contains((#[trigger] ps[k]).id@) by {
                            if k < j {
                                let i = choose|i: int| 0 <= i < vb.len() && vb[i] == ps[k].id@;
                                assert(va[i] == vb[i]);
                            } else {
                                assert(va[vb.len() as int] == p.id@);
                            }
                        }
                    }
                }
                j = j + 1;
            }
            proof {
                let vs = id_views(visited@);
                assert forall|i: int| 0 <= i < hc + 1 implies vs[i] == v1[i] by {
                    assert(vs.take(v1.len() as int)[i] == v1[i]);
                }
                assert forall|i: int, u: Seq<char>| 0 <= i < head && !lv.contains(vs[i])
                    && #[trigger] is_prereq(cs, es, vs[i], u) implies vs.contains(u) by {
                    assert(vs[i] == v1[i]);
                    if i < hc {
                        assert(is_prereq(cs, es, v1[i], u));
                        assert(v1.contains(u));
                        let w = choose|w: int| 0 <= w < v1.len() && v1[w] == u;
                        assert(vs.take(v1.len() as int)[w] == v1[w]);
                    } else {
                        let k = choose|k: int| 0 <= k < ps.len() && (#[trigger] ps[k]).id@ == u;
                    }
                }
                let na = id_views(needed@);
                assert forall|i: int| 0 <= i < head && !lv.contains(#[trigger] vs[i])
                    implies na.contains(vs[i]) by {
                    assert(vs[i] == v1[i]);
                    if i < hc {
                        assert(nb.contains(v1[i]));
                        let w = choose|w: int| 0 <= w < nb.len() && nb[w] == v1[i];
                        assert(na[w] == nb[w]);
                    } else {
                        assert(na[nb.len() as int] == c@);
                    }
                }
                assert forall|i: int| 0 <= i < needed@.len() implies needed_for(cs, es, lv, target@, #[trigger] na[i]) by {
                    if i < nb.len() {
                        assert(na[i] == nb[i]);
                    }
                }
                let idx = ids_of(cs);
                assert forall|i: int| 0 <= i < vs.len() implies idx.contains(#[trigger] vs[i]) by {
                    let k = choose|k: int| 0 <= k < cs.len() && (#[trigger] cs[k]).id@ == vs[i];
                    assert(idx[k] == vs[i]);
                }
                lemma_distinct_within(vs, idx);
            }
        }

        let ghost nv = id_views(needed@);
        proof {
            let vs = id_views(visited@);
            assert forall|x: Seq<char>| nv.contains(x) <==> needed_for(cs, es, lv, target@, x) by {
                if nv.contains(x) {
                    let i = choose|i: int| 0 <= i < nv.len() && nv[i] == x;
                }
                if needed_for(cs, es, lv, target@, x) {
                    let p = choose|p: Seq<Seq<char>>|
                        #[trigger] prereq_chain(cs, es, p) && p.len() >= 1 && p[0] == target@ && p.last() == x
                            && forall|i: int| 0 <= i < p.len() - 1 ==> !lv.contains(#[trigger] p[i]);
                    lemma_unlearned_chain_within(cs, es, lv, vs, p, p.len() - 1);
                    let i = choose|i: int| 0 <= i < vs.len() && vs[i] == x;
                }
            }
        }

        // The target itself is needed, so there is always a step.
        assert(needed@.len() >= 1);

        // Order the needed concepts topologically.
        let topo = graph.topological_sort();
        let ghost tv = id_views(topo@);
        let ghost pred = needed_pred(cs, es, lv, target@);
        let tn = topo.len();
        let mut steps: Vec<ConceptId> = Vec::new();
        let mut i: usize = 0;
        while i < tn
            invariant
                tn == topo@.len(),
                tv == id_views(topo@),
                pred == needed_pred(cs, es, lv, target@),
                nv == id_views(needed@),
                forall|x: Seq<char>| nv.contains(x) <==> needed_for(cs, es, lv, target@, x),
                0 <= i <= tn,
                id_views(steps@) == tv.take(i as int).filter(pred),
            decreases tn - i,
        {
            let ghost sb = id_views(steps@);
            proof {
                assert(tv.take(i + 1) =~= tv.take(i as int).push(tv[i as int]));
                tv.take(i as int).lemma_filter_push(tv[i as int], pred);
            }
            if contains_id(needed.as_slice(), &topo[i]) {
                steps.push(topo[i].duplicate());
                assert(id_views(steps@) =~= sb.push(tv[i as int]));
            }
            i = i + 1;
        }
        proof {
            assert(tv.take(tn as int) =~= tv);
        }

        // Sum their difficulties.
        let ghost sv = id_views(steps@);
        proof {
            assert(is_topological_order(cs, es, tv));
        }
        let sn = steps.len();
        let mut total: u32 = 0;
        let mut k: usize = 0;
        while k < sn
            invariant
                cs == graph.nodes(),
                sn == steps@.len(),
                sv == id_views(steps@),
                difficulty_sum(cs, sv) <= u32::MAX,
                0 <= k <= sn,
                total == difficulty_sum(cs, sv.take(k as int)),
            decreases sn - k,
        {
            proof {
                assert(sv.take(k + 1).drop_last() =~= sv.take(k as int));
                lemma_difficulty_sum_prefix(cs, sv, k + 1);
            }
            match graph.concepts.get(&steps[k]) {
                Some(c) => {
                    total = total + c.difficulty;
                },
                None => {},
            }
            k = k + 1;
        }
        proof {
            assert(sv.take(sn as int) =~= sv);
        }
        let estimated_ticks = total as u64 * 10;
        Some(LearningPath { steps, total_difficulty: total, estimated_ticks })
    }
}

} // verus!
