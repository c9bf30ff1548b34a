//! Properties of the graph operations that span several calls.
use vstd::prelude::*;
use crate::concept::{Concept, clamped_difficulty};
use crate::graph::{
    dependent_seq, edge_from, edge_into, flipped, is_prereq, learnable_next, lemma_prereq_seq, prereq_seq,
    unlockable_seq, unlocked, with_edge,
};
use crate::plan::{difficulty_sum, lemma_via_unlearned_step, needed_for, needed_pred, via_unlearned};
use crate::closure::{chain_step, dfs_order, dfs_visit, lemma_dfs_kids, lemma_reaches_step, lemma_unvisited_visit, prereq_chain, prereq_ids, reaches, unvisited_count};
use crate::store::{distinct_ids, has_id, ids_of, index_of_id, inserted, lemma_index_of_id, lemma_lookup, lookup};
use crate::topo::{is_topological_order, respects_edges};

verus! {

/// `Concept::new` clamps the difficulty into `1..=5`: values inside stay, values below
/// become 1, values above become 5, and a larger given difficulty never stores a smaller one.
pub proof fn law_difficulty_clamp(d1: u32, d2: u32)
    ensures
        1 <= clamped_difficulty(d1) <= 5,
        1 <= d1 <= 5 ==> clamped_difficulty(d1) == d1,
        d1 <= 1 ==> clamped_difficulty(d1) == 1,
        d1 >= 5 ==> clamped_difficulty(d1) == 5,
        d1 <= d2 ==> clamped_difficulty(d1) <= clamped_difficulty(d2),
{
}

/// After `add_concept(c)` the concept found under `c`'s identifier is `c`; every other
/// identifier finds what it found before; identifiers stay unique.
pub proof fn law_add_concept_then_lookup(s: Seq<Concept>, c: Concept, x: Seq<char>)
    requires
        distinct_ids(s),
    ensures
        distinct_ids(inserted(s, c)),
        has_id(inserted(s, c), c.id@),
        lookup(inserted(s, c), c.id@) == c,
        x != c.id@ ==> (has_id(inserted(s, c), x) <==> has_id(s, x)),
        x != c.id@ && has_id(s, x) ==> lookup(inserted(s, c), x) == lookup(s, x),
        inserted(s, c).len() == if has_id(s, c.id@) { s.len() } else { s.len() + 1 },
{
    let t = inserted(s, c);
    if has_id(s, c.id@) {
        let i = index_of_id(s, c.id@);
        lemma_lookup(s, c.id@);
        assert(distinct_ids(t)) by {
            assert forall|a: int, b: int| 0 <= a < t.len() && 0 <= b < t.len() && a != b
                implies (#[trigger] t[a]).id@ != (#[trigger] t[b]).id@ by {
                if a != i && b != i {
                    assert(t[a] == s[a] && t[b] == s[b]);
                } else if a == i {
                    assert(t[b] == s[b]);
                } else {
                    assert(t[a] == s[a]);
                }
            }
        }
    } else {
        assert(distinct_ids(t)) by {
            assert forall|a: int, b: int| 0 <= a < t.len() && 0 <= b < t.len() && a != b
                implies (#[trigger] t[a]).id@ != (#[trigger] t[b]).id@ by {
                if a < s.len() && b < s.len() {
                    assert(t[a] == s[a] && t[b] == s[b]);
                } else if a < s.len() {
                    assert(t[a] == s[a]);
                } else {
                    assert(t[b] == s[b]);
                }
            }
        }
    }
    let j = if has_id(s, c.id@) { index_of_id(s, c.id@) } else { s.len() as int };
    assert(t[j] == c);
    lemma_index_of_id(t, j);
    if x != c.id@ {
        if has_id(t, x) {
            let k = choose|k: int| 0 <= k < t.len() && (#[trigger] t[k]).id@ == x;
            assert(k != j);
            assert(t[k] == s[k]);
        }
        if has_id(s, x) {
            let k = choose|k: int| 0 <= k < s.len() && (#[trigger] s[k]).id@ == x;
            assert(k != j);
            assert(t[k] == s[k]);
            lemma_index_of_id(s, k);
            lemma_index_of_id(t, k);
        }
    }
}

/// `add_prereq` never duplicates an edge: the edge is present afterwards, adding it again
/// changes nothing, and edges that were unique stay unique.
pub proof fn law_add_prereq_no_duplicates(es: Seq<(Seq<char>, Seq<char>)>, e: (Seq<char>, Seq<char>))
    ensures
        with_edge(es, e).contains(e),
        with_edge(with_edge(es, e), e) == with_edge(es, e),
        es.no_duplicates() ==> with_edge(es, e).no_duplicates(),
{
    if !es.contains(e) {
        let t = es.push(e);
        assert(t[es.len() as int] == e);
        if es.no_duplicates() {
            assert forall|a: int, b: int| 0 <= a < t.len() && 0 <= b < t.len() && a != b implies t[a] != t[b] by {
                if a < es.len() && b < es.len() {
                } else if a < es.len() {
                    assert(es.contains(t[a]));
                } else {
                    assert(es.contains(t[b]));
                }
            }
        }
    }
}

/// Between two concepts, `u` is among the prerequisites of `v` exactly when `v` is among
/// the dependents of `u`.
pub proof fn law_prerequisites_dependents_dual(
    cs: Seq<Concept>,
    es: Seq<(Seq<char>, Seq<char>)>,
    u: Seq<char>,
    v: Seq<char>,
)
    requires
        has_id(cs, u),
        has_id(cs, v),
    ensures
        (exists|j: int| 0 <= j < prereq_seq(cs, es, v).len() && (#[trigger] prereq_seq(cs, es, v)[j]).id@ == u)
            <==> (exists|j: int| 0 <= j < dependent_seq(cs, es, u).len() && (#[trigger] dependent_seq(cs, es, u)[j]).id@ == v),
{
    lemma_prereq_seq(cs, es, v);
    lemma_prereq_seq(cs, flipped(es), u);
    let fs = flipped(es);
    if exists|j: int| 0 <= j < prereq_seq(cs, es, v).len() && (#[trigger] prereq_seq(cs, es, v)[j]).id@ == u {
        let j = choose|j: int| 0 <= j < prereq_seq(cs, es, v).len() && (#[trigger] prereq_seq(cs, es, v)[j]).id@ == u;
        assert(is_prereq(cs, es, v, u));
        let k = choose|k: int| 0 <= k < es.len() && (#[trigger] es[k]).0 == u && es[k].1 == v;
        assert(fs[k] == (v, u));
        assert(is_prereq(cs, fs, u, v));
    }
    if exists|j: int| 0 <= j < dependent_seq(cs, es, u).len() && (#[trigger] dependent_seq(cs, es, u)[j]).id@ == v {
        let j = choose|j: int| 0 <= j < dependent_seq(cs, es, u).len() && (#[trigger] dependent_seq(cs, es, u)[j]).id@ == v;
        assert(is_prereq(cs, fs, u, v));
        let k = choose|k: int| 0 <= k < fs.len() && (#[trigger] fs[k]).0 == v && fs[k].1 == u;
        assert(es[k].0 == u && es[k].1 == v);
        assert(is_prereq(cs, es, v, u));
    }
}

/// What `next_unlockable` returns is exactly the concepts that are not learned and for
/// which `is_unlocked` holds.
pub proof fn law_next_unlockable_members(
    cs: Seq<Concept>,
    es: Seq<(Seq<char>, Seq<char>)>,
    learned: Seq<Seq<char>>,
    x: Seq<char>,
)
    ensures
        (exists|j: int| 0 <= j < unlockable_seq(cs, cs, es, learned).len()
            && (#[trigger] unlockable_seq(cs, cs, es, learned)[j]).id@ == x)
            <==> (has_id(cs, x) && !learned.contains(x) && unlocked(cs, es, x, learned)),
{
    lemma_unlockable_prefix(cs, cs.len() as int, es, learned, x);
    assert(cs.take(cs.len() as int) =~= cs);
}

proof fn lemma_unlockable_prefix(
    cs: Seq<Concept>,
    k: int,
    es: Seq<(Seq<char>, Seq<char>)>,
    learned: Seq<Seq<char>>,
    x: Seq<char>,
)
    requires
        0 <= k <= cs.len(),
    ensures
        (exists|j: int| 0 <= j < unlockable_seq(cs.take(k), cs, es, learned).len()
            && (#[trigger] unlockable_seq(cs.take(k), cs, es, learned)[j]).id@ == x)
            <==> (has_id(cs.take(k), x) && !learned.contains(x) && unlocked(cs, es, x, learned)),
    decreases k,
{
    let s = cs.take(k);
    let u = unlockable_seq(s, cs, es, learned);
    if k > 0 {
        lemma_unlockable_prefix(cs, k - 1, es, learned, x);
        let s0 = cs.take(k - 1);
        assert(s.drop_last() =~= s0);
        let u0 = unlockable_seq(s0, cs, es, learned);
        let c = s.last();
        if exists|j: int| 0 <= j < u.len() && (#[trigger] u[j]).id@ == x {
            let j = choose|j: int| 0 <= j < u.len() && (#[trigger] u[j]).id@ == x;
            if j < u0.len() {
                assert(u[j] == u0[j]);
                assert(has_id(s0, x));
                let i = choose|i: int| 0 <= i < s0.len() && (#[trigger] s0[i]).id@ == x;
                assert(s[i] == s0[i]);
            } else {
                assert(s[k - 1] == c);
                assert(u[j] == c);
            }
        }
        if has_id(s, x) && !learned.contains(x) && unlocked(cs, es, x, learned) {
            let i = choose|i: int| 0 <= i < s.len() && (#[trigger] s[i]).id@ == x;
            if i < k - 1 {
                assert(s0[i] == s[i]);
                assert(has_id(s0, x));
                let j = choose|j: int| 0 <= j < u0.len() && (#[trigger] u0[j]).id@ == x;
                assert(u[j] == u0[j]);
            } else {
                assert(c == s[i]);
                assert(u[u.len() - 1] == c);
            }
        }
    }
}

/// The prerequisites that `all_prerequisites` collects are closed under `prerequisites_of`:
/// direct prerequisites are among them, and so are the direct prerequisites of each of them.
pub proof fn law_all_prerequisites_closed(
    cs: Seq<Concept>,
    es: Seq<(Seq<char>, Seq<char>)>,
    root: Seq<char>,
    x: Seq<char>,
    u: Seq<char>,
)
    ensures
        is_prereq(cs, es, root, u) ==> reaches(cs, es, root, u),
        reaches(cs, es, root, x) && is_prereq(cs, es, x, u) ==> reaches(cs, es, root, u),
{
    if is_prereq(cs, es, root, u) {
        lemma_reaches_step(cs, es, root, root, u);
    }
    if reaches(cs, es, root, x) && is_prereq(cs, es, x, u) {
        lemma_reaches_step(cs, es, root, x, u);
    }
}

/// Learning more never locks a concept again.
pub proof fn law_unlocked_monotone(
    cs: Seq<Concept>,
    es: Seq<(Seq<char>, Seq<char>)>,
    c: Seq<char>,
    learned: Seq<Seq<char>>,
    more: Seq<Seq<char>>,
)
    requires
        unlocked(cs, es, c, learned),
        forall|x: Seq<char>| learned.contains(x) ==> more.contains(x),
    ensures
        unlocked(cs, es, c, more),
{
}

/// A topological order puts every transitive prerequisite of a concept before it.
pub proof fn law_topological_order_puts_prerequisites_first(
    cs: Seq<Concept>,
    es: Seq<(Seq<char>, Seq<char>)>,
    t: Seq<Seq<char>>,
    pt: int,
    y: Seq<char>,
)
    requires
        is_topological_order(cs, es, t),
        0 <= pt < t.len(),
        reaches(cs, es, t[pt], y),
    ensures
        exists|q: int| 0 <= q < pt && t[q] == y,
{
    let p = choose|p: Seq<Seq<char>>|
        #[trigger] prereq_chain(cs, es, p) && p.len() >= 2 && p[0] == t[pt] && p.last() == y;
    let n = p.len() - 1;
    lemma_chain_positions(cs, es, t, p, pt, n - 1);
    let q1 = choose|q1: int| 0 <= q1 <= pt && t[q1] == p[n - 1];
    assert(chain_step(cs, es, p, n - 1));
    let e = choose|e: int| 0 <= e < es.len() && (#[trigger] es[e]).0 == p[n] && es[e].1 == p[n - 1];
    assert(respects_edges(es, t));
    assert(es[e].1 == t[q1]);
    let q = choose|q: int| 0 <= q < q1 && t[q] == es[e].0;
    assert(t[q] == y);
}

/// `prerequisites_of(v)` lists one concept per edge into `v` whose source is a concept, in
/// edge order: the concept at that source. With distinct edges no identifier repeats.
pub proof fn law_prerequisites_one_per_edge(cs: Seq<Concept>, es: Seq<(Seq<char>, Seq<char>)>, v: Seq<char>)
    ensures
        prereq_seq(cs, es, v).len() == es.filter(edge_into(cs, v)).len(),
        forall|i: int| 0 <= i < prereq_seq(cs, es, v).len() ==>
            #[trigger] prereq_seq(cs, es, v)[i] == lookup(cs, es.filter(edge_into(cs, v))[i].0),
        es.no_duplicates() ==> ids_of(prereq_seq(cs, es, v)).no_duplicates(),
    decreases es.len(),
{
    broadcast use vstd::seq_lib::group_filter_ensures;

    reveal(Seq::filter);
    if es.len() > 0 {
        let es0 = es.drop_last();
        let e = es.last();
        let p = edge_into(cs, v);
        law_prerequisites_one_per_edge(cs, es0, v);
        let s0 = prereq_seq(cs, es0, v);
        let s = prereq_seq(cs, es, v);
        let f0 = es0.filter(p);
        let f = es.filter(p);
        assert(f == if p(e) { f0.push(e) } else { f0 });
        assert forall|i: int| 0 <= i < s.len() implies #[trigger] s[i] == lookup(cs, f[i].0) by {
            if i < s0.len() {
                assert(s[i] == s0[i] && f[i] == f0[i]);
            }
        }
        if es.no_duplicates() {
            assert(es0.no_duplicates()) by {
                assert forall|a: int, b: int| 0 <= a < es0.len() && 0 <= b < es0.len() && a != b implies es0[a] != es0[b] by {
                    assert(es0[a] == es[a] && es0[b] == es[b]);
                }
            }
            if p(e) {
                let ids = ids_of(s);
                let ids0 = ids_of(s0);
                lemma_lookup(cs, e.0);
                assert forall|a: int, b: int| 0 <= a < ids.len() && 0 <= b < ids.len() && a != b implies ids[a] != ids[b] by {
                    if a < ids0.len() && b < ids0.len() {
                        assert(ids[a] == ids0[a] && ids[b] == ids0[b]);
                    } else {
                        let j = if a < ids0.len() { a } else { b };
                        assert(j < ids0.len());
                        assert(s[j] == lookup(cs, f0[j].0));
                        assert(p(f0[j]));
                        lemma_lookup(cs, f0[j].0);
                        if ids[j] == e.0 {
                            assert(f0[j] == e);
                            assert(f0.contains(f0[j]));
                            es0.lemma_filter_contains_rev(p, f0[j]);
                            let k = choose|k: int| 0 <= k < es0.len() && es0[k] == e;
                            assert(es[k] == es[es.len() - 1]);
                        }
                    }
                }
            } else {
                assert(ids_of(s) =~= ids_of(s0));
            }
        }
    }
}

/// Reversing the edges turns the edges out of `u` into the edges into `u`, in the same order.
proof fn lemma_flipped_filter(cs: Seq<Concept>, es: Seq<(Seq<char>, Seq<char>)>, u: Seq<char>)
    ensures
        flipped(es).filter(edge_into(cs, u)) == flipped(es.filter(edge_from(cs, u))),
    decreases es.len(),
{
    reveal(Seq::filter);
    if es.len() > 0 {
        let es0 = es.drop_last();
        lemma_flipped_filter(cs, es0, u);
        assert(flipped(es).drop_last() =~= flipped(es0));
        let f0 = es0.filter(edge_from(cs, u));
        assert(flipped(f0.push(es.last())) =~= flipped(f0).push((es.last().1, es.last().0)));
    } else {
        assert(flipped(es.filter(edge_from(cs, u))) =~= flipped(es).filter(edge_into(cs, u)));
    }
}

/// `dependents(u)` lists one concept per edge out of `u` whose target is a concept, in edge
/// order: the concept at that target. With distinct edges no identifier repeats.
pub proof fn law_dependents_one_per_edge(cs: Seq<Concept>, es: Seq<(Seq<char>, Seq<char>)>, u: Seq<char>)
    ensures
        dependent_seq(cs, es, u).len() == es.filter(edge_from(cs, u)).len(),
        forall|i: int| 0 <= i < dependent_seq(cs, es, u).len() ==>
            #[trigger] dependent_seq(cs, es, u)[i] == lookup(cs, es.filter(edge_from(cs, u))[i].1),
        es.no_duplicates() ==> ids_of(dependent_seq(cs, es, u)).no_duplicates(),
{
    let fs = flipped(es);
    law_prerequisites_one_per_edge(cs, fs, u);
    lemma_flipped_filter(cs, es, u);
    let f = es.filter(edge_from(cs, u));
    assert forall|i: int| 0 <= i < dependent_seq(cs, es, u).len() implies
        #[trigger] dependent_seq(cs, es, u)[i] == lookup(cs, f[i].1) by {
        assert(flipped(f)[i] == (f[i].1, f[i].0));
    }
    if es.no_duplicates() {
        assert forall|a: int, b: int| 0 <= a < fs.len() && 0 <= b < fs.len() && a != b implies fs[a] != fs[b] by {
            assert(fs[a] == (es[a].1, es[a].0) && fs[b] == (es[b].1, es[b].0));
        }
    }
}

/// `next_unlockable` lists, in map order and once each, exactly the concepts that are not
/// learned and whose direct prerequisites all are; no two share an identifier.
pub proof fn law_next_unlockable_exact(cs: Seq<Concept>, es: Seq<(Seq<char>, Seq<char>)>, learned: Seq<Seq<char>>)
    ensures
        unlockable_seq(cs, cs, es, learned) == cs.filter(learnable_next(cs, es, learned)),
        distinct_ids(cs) ==> distinct_ids(unlockable_seq(cs, cs, es, learned)),
{
    lemma_unlockable_filter(cs, cs, es, learned);
    let pred = learnable_next(cs, es, learned);
    let f = cs.filter(pred);
    if distinct_ids(cs) {
        assert forall|a: int, b: int| 0 <= a < f.len() && 0 <= b < f.len() && a != b
            implies (#[trigger] f[a]).id@ != (#[trigger] f[b]).id@ by {
            let (lo, hi) = if a < b { (a, b) } else { (b, a) };
            lemma_filter_order(cs, pred, lo, hi);
            let (x, y) = choose|x: int, y: int| 0 <= x < y < cs.len() && cs[x] == f[lo] && cs[y] == f[hi];
        }
    }
}

proof fn lemma_unlockable_filter(s: Seq<Concept>, cs: Seq<Concept>, es: Seq<(Seq<char>, Seq<char>)>, learned: Seq<Seq<char>>)
    ensures
        unlockable_seq(s, cs, es, learned) == s.filter(learnable_next(cs, es, learned)),
    decreases s.len(),
{
    reveal(Seq::filter);
    if s.len() > 0 {
        lemma_unlockable_filter(s.drop_last(), cs, es, learned);
    } else {
        assert(s.filter(learnable_next(cs, es, learned)) =~= Seq::<Concept>::empty());
    }
}

/// The total difficulty of a sequence of identifiers adds up over concatenation, and a
/// single identifier counts the difficulty of its concept (nothing when it is not a concept).
pub proof fn law_difficulty_sum_additive(cs: Seq<Concept>, s: Seq<Seq<char>>, t: Seq<Seq<char>>, x: Seq<char>)
    ensures
        difficulty_sum(cs, Seq::empty()) == 0,
        difficulty_sum(cs, seq![x]) == if has_id(cs, x) { lookup(cs, x).difficulty as nat } else { 0nat },
        difficulty_sum(cs, s + t) == difficulty_sum(cs, s) + difficulty_sum(cs, t),
    decreases t.len(),
{
    let one: Seq<Seq<char>> = seq![x];
    assert(one.drop_last() =~= Seq::<Seq<char>>::empty());
    assert(one.last() == x);
    assert(difficulty_sum(cs, one.drop_last()) == 0);
    if t.len() == 0 {
        assert(s + t =~= s);
    } else {
        law_difficulty_sum_additive(cs, s, t.drop_last(), x);
        assert((s + t).drop_last() =~= s + t.drop_last());
        assert((s + t).last() == t.last());
    }
}

/// A concept is unlocked exactly when every concept that `prerequisites_of` lists for it is
/// learned.
pub proof fn law_unlocked_iff_prerequisites_learned(
    cs: Seq<Concept>,
    es: Seq<(Seq<char>, Seq<char>)>,
    c: Seq<char>,
    learned: Seq<Seq<char>>,
)
    ensures
        unlocked(cs, es, c, learned) <==> forall|i: int| 0 <= i < prereq_seq(cs, es, c).len()
            ==> learned.contains(#[trigger] prereq_seq(cs, es, c)[i].id@),
{
    lemma_prereq_seq(cs, es, c);
    let ps = prereq_seq(cs, es, c);
    if unlocked(cs, es, c, learned) {
        assert forall|i: int| 0 <= i < ps.len() implies learned.contains(#[trigger] ps[i].id@) by {
            assert(is_prereq(cs, es, c, ps[i].id@));
        }
    }
    if forall|i: int| 0 <= i < ps.len() ==> learned.contains(#[trigger] ps[i].id@) {
        assert forall|u: Seq<char>| #[trigger] is_prereq(cs, es, c, u) implies learned.contains(u) by {
            let j = choose|j: int| 0 <= j < ps.len() && (#[trigger] ps[j]).id@ == u;
            assert(learned.contains(ps[j].id@));
        }
    }
}

/// `all_prerequisites` starts with the first concept that `prerequisites_of` lists, and is
/// empty exactly when that list is.
pub proof fn law_all_prerequisites_starts_with_first_prerequisite(
    cs: Seq<Concept>,
    es: Seq<(Seq<char>, Seq<char>)>,
    v: Seq<char>,
)
    ensures
        prereq_seq(cs, es, v).len() == 0 ==> dfs_order(cs, es, v).len() == 0,
        prereq_seq(cs, es, v).len() > 0 ==> dfs_order(cs, es, v).len() > 0
            && dfs_order(cs, es, v)[0] == prereq_seq(cs, es, v)[0].id@,
{
    let kids = prereq_ids(cs, es, v);
    let none: Seq<Seq<char>> = Seq::empty();
    let f = unvisited_count(cs, none);
    lemma_prereq_seq(cs, es, v);
    assert forall|i: int| 0 <= i < kids.len() implies has_id(cs, #[trigger] kids[i]) by {
        assert(kids[i] == prereq_seq(cs, es, v)[i].id@);
    }
    if kids.len() > 0 {
        let k = kids[0];
        let w = none.push(k);
        lemma_unvisited_visit(cs, none, k);
        let ks = prereq_ids(cs, es, k);
        lemma_prereq_seq(cs, es, k);
        assert forall|i: int| 0 <= i < ks.len() implies has_id(cs, #[trigger] ks[i]) by {
            assert(ks[i] == prereq_seq(cs, es, k)[i].id@);
        }
        lemma_dfs_kids(cs, es, ks, w, (f - 1) as nat, (f - 1) as nat);
        let after = dfs_visit(cs, es, k, w, (f - 1) as nat);
        assert(after.take(1)[0] == w[0]);
        let rest = kids.drop_first();
        assert forall|i: int| 0 <= i < rest.len() implies has_id(cs, #[trigger] rest[i]) by {
            assert(rest[i] == kids[i + 1]);
        }
        assert(forall|x: Seq<char>| none.contains(x) ==> after.contains(x));
        crate::closure::lemma_unvisited_monotone(cs, none, after);
        lemma_dfs_kids(cs, es, rest, after, f, f);
        let r = crate::closure::dfs_kids(cs, es, rest, after, f);
        assert(r.take(after.len() as int)[0] == after[0]);
        assert(!none.contains(k));
    } else {
        assert(kids.len() == 0);
    }
}

/// Every topological order holds the same concepts: the ones not blocked by a cycle or by
/// an edge from something that is not a concept.
pub proof fn law_topological_orders_same_concepts(
    cs: Seq<Concept>,
    es: Seq<(Seq<char>, Seq<char>)>,
    t1: Seq<Seq<char>>,
    t2: Seq<Seq<char>>,
    x: Seq<char>,
)
    requires
        is_topological_order(cs, es, t1),
        is_topological_order(cs, es, t2),
    ensures
        t1.contains(x) <==> t2.contains(x),
{
    if t1.contains(x) {
        let p = choose|p: int| 0 <= p < t1.len() && t1[p] == x;
        lemma_topo_within(cs, es, t1, t2, p);
    }
    if t2.contains(x) {
        let p = choose|p: int| 0 <= p < t2.len() && t2[p] == x;
        lemma_topo_within(cs, es, t2, t1, p);
    }
}

proof fn lemma_topo_within(cs: Seq<Concept>, es: Seq<(Seq<char>, Seq<char>)>, t1: Seq<Seq<char>>, t2: Seq<Seq<char>>, p: int)
    requires
        is_topological_order(cs, es, t1),
        is_topological_order(cs, es, t2),
        0 <= p < t1.len(),
    ensures
        t2.contains(t1[p]),
    decreases p,
{
    let x = t1[p];
    assert(has_id(cs, x));
    assert forall|k: int| 0 <= k < es.len() && (#[trigger] es[k]).1 == x implies t2.contains(es[k].0) by {
        assert(respects_edges(es, t1));
        let i2 = choose|i2: int| 0 <= i2 < p && t1[i2] == es[k].0;
        lemma_topo_within(cs, es, t1, t2, i2);
    }
}

/// In a learning path the target comes last: every other needed concept is a transitive
/// prerequisite of the target, so a topological order puts it earlier.
pub proof fn law_learning_path_ends_at_target(
    cs: Seq<Concept>,
    es: Seq<(Seq<char>, Seq<char>)>,
    learned: Seq<Seq<char>>,
    target: Seq<char>,
    t: Seq<Seq<char>>,
)
    requires
        is_topological_order(cs, es, t),
        t.contains(target),
        !learned.contains(target),
    ensures
        t.filter(needed_pred(cs, es, learned, target)).len() > 0,
        t.filter(needed_pred(cs, es, learned, target)).last() == target,
{
    broadcast use vstd::seq_lib::group_filter_ensures;

    let pred = needed_pred(cs, es, learned, target);
    let pt = choose|pt: int| 0 <= pt < t.len() && t[pt] == target;
    assert(prereq_chain(cs, es, seq![target]));
    assert(via_unlearned(cs, es, learned, target, target));
    assert(pred(t[pt]));
    // Every needed concept sits at or before the target.
    assert forall|i: int| 0 <= i < t.len() && pred(t[i]) implies i <= pt by {
        lemma_needed_before_target(cs, es, learned, target, t, pt, i);
    }
    lemma_filter_last(t, pred, pt);
}

proof fn lemma_needed_before_target(
    cs: Seq<Concept>,
    es: Seq<(Seq<char>, Seq<char>)>,
    learned: Seq<Seq<char>>,
    target: Seq<char>,
    t: Seq<Seq<char>>,
    pt: int,
    i: int,
)
    requires
        is_topological_order(cs, es, t),
        0 <= pt < t.len(),
        t[pt] == target,
        0 <= i < t.len(),
        needed_for(cs, es, learned, target, t[i]),
    ensures
        i <= pt,
{
    let x = t[i];
    let p = choose|p: Seq<Seq<char>>|
        #[trigger] prereq_chain(cs, es, p) && p.len() >= 1 && p[0] == target && p.last() == x
            && forall|j: int| 0 <= j < p.len() - 1 ==> !learned.contains(#[trigger] p[j]);
    lemma_chain_positions(cs, es, t, p, pt, p.len() - 1);
    let q = choose|q: int| 0 <= q <= pt && t[q] == p[p.len() - 1];
    assert(t.no_duplicates());
}

/// Along a prerequisite chain from `t[pt]`, each element sits in `t` at or before `pt`.
proof fn lemma_chain_positions(cs: Seq<Concept>, es: Seq<(Seq<char>, Seq<char>)>, t: Seq<Seq<char>>, p: Seq<Seq<char>>, pt: int, k: int)
    requires
        is_topological_order(cs, es, t),
        0 <= pt < t.len(),
        prereq_chain(cs, es, p),
        p.len() >= 1,
        p[0] == t[pt],
        0 <= k < p.len(),
    ensures
        exists|q: int| 0 <= q <= pt && t[q] == p[k],
    decreases k,
{
    if k == 0 {
        assert(t[pt] == p[0]);
    } else {
        lemma_chain_positions(cs, es, t, p, pt, k - 1);
        let q = choose|q: int| 0 <= q <= pt && t[q] == p[k - 1];
        assert(chain_step(cs, es, p, k - 1));
        let e = choose|e: int| 0 <= e < es.len() && (#[trigger] es[e]).0 == p[k] && es[e].1 == p[k - 1];
        assert(respects_edges(es, t));
        assert(es[e].1 == t[q]);
        let q2 = choose|q2: int| 0 <= q2 < q && t[q2] == es[e].0;
        assert(t[q2] == p[k]);
    }
}

/// A learning path keeps the order of prerequisites: when one step is a direct prerequisite
/// source of another, it comes first.
pub proof fn law_learning_path_respects_prerequisites(
    cs: Seq<Concept>,
    es: Seq<(Seq<char>, Seq<char>)>,
    learned: Seq<Seq<char>>,
    target: Seq<char>,
    t: Seq<Seq<char>>,
)
    requires
        is_topological_order(cs, es, t),
    ensures
        forall|i: int, k: int|
            0 <= i < t.filter(needed_pred(cs, es, learned, target)).len() && 0 <= k < es.len()
            && (#[trigger] es[k]).1 == #[trigger] t.filter(needed_pred(cs, es, learned, target))[i]
            && t.filter(needed_pred(cs, es, learned, target)).contains(es[k].0)
            ==> exists|i2: int| 0 <= i2 < i && t.filter(needed_pred(cs, es, learned, target))[i2] == es[k].0,
{
    let pred = needed_pred(cs, es, learned, target);
    let f = t.filter(pred);
    assert forall|i: int, k: int|
        0 <= i < f.len() && 0 <= k < es.len() && (#[trigger] es[k]).1 == #[trigger] f[i] && f.contains(es[k].0)
        implies exists|i2: int| 0 <= i2 < i && f[i2] == es[k].0 by {
        let j = choose|j: int| 0 <= j < f.len() && f[j] == es[k].0;
        lemma_filter_in(t, pred, i);
        let x = choose|x: int| 0 <= x < t.len() && t[x] == f[i];
        assert(respects_edges(es, t));
        assert(es[k].1 == t[x]);
        let y = choose|y: int| 0 <= y < x && t[y] == es[k].0;
        if j == i {
            assert(t[x] == t[y]);
            assert(t.no_duplicates());
        } else if j > i {
            lemma_filter_order(t, pred, i, j);
            let (x2, y2) = choose|x2: int, y2: int| 0 <= x2 < y2 < t.len() && t[x2] == f[i] && t[y2] == f[j];
            assert(t.no_duplicates());
            assert(x2 == x);
            assert(y2 == y);
        }
    }
}

/// Following a learning path in order, each step is unlocked when it is reached: every
/// direct prerequisite of step `i` is learned or is an earlier step.
pub proof fn law_learning_path_unlocks_in_order(
    cs: Seq<Concept>,
    es: Seq<(Seq<char>, Seq<char>)>,
    learned: Seq<Seq<char>>,
    target: Seq<char>,
    t: Seq<Seq<char>>,
    i: int,
)
    requires
        is_topological_order(cs, es, t),
        0 <= i < t.filter(needed_pred(cs, es, learned, target)).len(),
    ensures
        unlocked(cs, es, t.filter(needed_pred(cs, es, learned, target))[i],
            learned + t.filter(needed_pred(cs, es, learned, target)).take(i)),
{
    broadcast use vstd::seq_lib::group_filter_ensures;

    let pred = needed_pred(cs, es, learned, target);
    let f = t.filter(pred);
    let v = f[i];
    let known = learned + f.take(i);
    assert(pred(v));
    law_learning_path_respects_prerequisites(cs, es, learned, target, t);
    assert forall|u: Seq<char>| #[trigger] is_prereq(cs, es, v, u) implies known.contains(u) by {
        if learned.contains(u) {
            let j = choose|j: int| 0 <= j < learned.len() && learned[j] == u;
            assert(known[j] == u);
        } else {
            lemma_via_unlearned_step(cs, es, learned, target, v, u);
            assert(pred(u));
            lemma_filter_in(t, pred, i);
            let x = choose|x: int| 0 <= x < t.len() && t[x] == v;
            let k = choose|k: int| 0 <= k < es.len() && (#[trigger] es[k]).0 == u && es[k].1 == v;
            assert(respects_edges(es, t));
            assert(es[k].1 == t[x]);
            let y = choose|y: int| 0 <= y < x && t[y] == es[k].0;
            assert(pred(t[y]));
            assert(f.contains(t[y]));
            assert(es[k].1 == f[i]);
            let i2 = choose|i2: int| 0 <= i2 < i && f[i2] == es[k].0;
            assert(known[learned.len() + i2] == u);
        }
    }
}

/// When the difficulties of all concepts together fit in `u32`, so do the difficulties of
/// the steps of any learning path: the requirement of `from_graph` follows.
pub proof fn law_total_difficulty_bounds_learning_path(
    cs: Seq<Concept>,
    es: Seq<(Seq<char>, Seq<char>)>,
    learned: Seq<Seq<char>>,
    target: Seq<char>,
)
    requires
        distinct_ids(cs),
        difficulty_sum(cs, ids_of(cs)) <= u32::MAX,
    ensures
        forall|t: Seq<Seq<char>>| #[trigger] is_topological_order(cs, es, t)
            ==> difficulty_sum(cs, t.filter(needed_pred(cs, es, learned, target))) <= u32::MAX,
{
    let all = ids_of(cs);
    assert(all.no_duplicates()) by {
        assert forall|a: int, b: int| 0 <= a < all.len() && 0 <= b < all.len() && a != b implies all[a] != all[b] by {
            assert(all[a] == cs[a].id@ && all[b] == cs[b].id@);
        }
    }
    assert forall|t: Seq<Seq<char>>| #[trigger] is_topological_order(cs, es, t)
        implies difficulty_sum(cs, t.filter(needed_pred(cs, es, learned, target))) <= u32::MAX by {
        let pred = needed_pred(cs, es, learned, target);
        let f = t.filter(pred);
        assert(f.no_duplicates()) by {
            assert forall|a: int, b: int| 0 <= a < f.len() && 0 <= b < f.len() && a != b implies f[a] != f[b] by {
                let (lo, hi) = if a < b { (a, b) } else { (b, a) };
                lemma_filter_order(t, pred, lo, hi);
                let (x, y) = choose|x: int, y: int| 0 <= x < y < t.len() && t[x] == f[lo] && t[y] == f[hi];
                assert(t.no_duplicates());
            }
        }
        assert forall|a: int| 0 <= a < f.len() implies all.contains(#[trigger] f[a]) by {
            lemma_filter_in(t, pred, a);
            let x = choose|x: int| 0 <= x < t.len() && t[x] == f[a];
            assert(has_id(cs, t[x]));
            let j = choose|j: int| 0 <= j < cs.len() && (#[trigger] cs[j]).id@ == t[x];
            assert(all[j] == f[a]);
        }
        lemma_sum_within(cs, f, all);
    }
}

/// The difficulty sum over distinct identifiers, all among the distinct `all`, is at most the
/// sum over `all`.
proof fn lemma_sum_within(cs: Seq<Concept>, s: Seq<Seq<char>>, all: Seq<Seq<char>>)
    requires
        s.no_duplicates(),
        all.no_duplicates(),
        forall|a: int| 0 <= a < s.len() ==> all.contains(#[trigger] s[a]),
    ensures
        difficulty_sum(cs, s) <= difficulty_sum(cs, all),
    decreases s.len(),
{
    if s.len() > 0 {
        let x = s.last();
        assert(all.contains(s[s.len() - 1]));
        let i = choose|i: int| 0 <= i < all.len() && all[i] == x;
        let rest = all.remove(i);
        lemma_sum_remove(cs, all, i);
        let s0 = s.drop_last();
        assert(rest.no_duplicates()) by {
            assert forall|a: int, b: int| 0 <= a < rest.len() && 0 <= b < rest.len() && a != b implies rest[a] != rest[b] by {
                let a2 = if a < i { a } else { a + 1 };
                let b2 = if b < i { b } else { b + 1 };
                assert(rest[a] == all[a2] && rest[b] == all[b2]);
            }
        }
        assert forall|a: int| 0 <= a < s0.len() implies rest.contains(#[trigger] s0[a]) by {
            assert(s0[a] == s[a]);
            assert(all.contains(s[a]));
            let j = choose|j: int| 0 <= j < all.len() && all[j] == s[a];
            assert(s[a] != s[s.len() - 1]);
            assert(j != i);
            if j < i {
                assert(rest[j] == all[j]);
            } else {
                assert(rest[j - 1] == all[j]);
            }
        }
        lemma_sum_within(cs, s0, rest);
    }
}

/// Removing the element at `i` removes its difficulty from the sum.
proof fn lemma_sum_remove(cs: Seq<Concept>, all: Seq<Seq<char>>, i: int)
    requires
        0 <= i < all.len(),
    ensures
        difficulty_sum(cs, all) == difficulty_sum(cs, all.remove(i)) + if has_id(cs, all[i]) {
            lookup(cs, all[i]).difficulty as nat
        } else {
            0nat
        },
    decreases all.len(),
{
    if i == all.len() - 1 {
        assert(all.remove(i) =~= all.drop_last());
    } else {
        let a0 = all.drop_last();
        lemma_sum_remove(cs, a0, i);
        assert(all.remove(i).drop_last() =~= a0.remove(i));
        assert(all.remove(i).last() == all.last());
        assert(a0[i] == all[i]);
    }
}

/// Each element of a filtered sequence occurs in the sequence.
proof fn lemma_filter_in<A>(s: Seq<A>, pred: spec_fn(A) -> bool, a: int)
    requires
        0 <= a < s.filter(pred).len(),
    ensures
        exists|x: int| 0 <= x < s.len() && s[x] == s.filter(pred)[a],
    decreases s.len(),
{
    reveal(Seq::filter);
    let s0 = s.drop_last();
    let f0 = s0.filter(pred);
    if a < f0.len() {
        lemma_filter_in(s0, pred, a);
        let x = choose|x: int| 0 <= x < s0.len() && s0[x] == f0[a];
        assert(s[x] == s0[x]);
    } else {
        assert(s[s.len() - 1] == s.filter(pred)[a]);
    }
}

/// Filtering keeps the relative order of elements.
proof fn lemma_filter_order<A>(s: Seq<A>, pred: spec_fn(A) -> bool, a: int, b: int)
    requires
        0 <= a < b < s.filter(pred).len(),
    ensures
        exists|x: int, y: int| 0 <= x < y < s.len() && s[x] == s.filter(pred)[a] && s[y] == s.filter(pred)[b],
    decreases s.len(),
{
    reveal(Seq::filter);
    let s0 = s.drop_last();
    let f0 = s0.filter(pred);
    let f = s.filter(pred);
    if b < f0.len() {
        lemma_filter_order(s0, pred, a, b);
        let (x, y) = choose|x: int, y: int| 0 <= x < y < s0.len() && s0[x] == f0[a] && s0[y] == f0[b];
        assert(s[x] == s0[x] && s[y] == s0[y]);
        assert(f[a] == f0[a] && f[b] == f0[b]);
    } else {
        lemma_filter_in(s0, pred, a);
        let x = choose|x: int| 0 <= x < s0.len() && s0[x] == f0[a];
        assert(s[x] == s0[x]);
        assert(f[a] == f0[a]);
        assert(s[s.len() - 1] == f[b]);
    }
}

/// When the last element satisfying `pred` sits at `pt`, filtering ends with it.
proof fn lemma_filter_last<A>(s: Seq<A>, pred: spec_fn(A) -> bool, pt: int)
    requires
        0 <= pt < s.len(),
        pred(s[pt]),
        forall|i: int| 0 <= i < s.len() && pred(s[i]) ==> i <= pt,
    ensures
        s.filter(pred).len() > 0,
        s.filter(pred).last() == s[pt],
    decreases s.len(),
{
    reveal(Seq::filter);
    if pt == s.len() - 1 {
    } else {
        let s0 = s.drop_last();
        assert(!pred(s.last()));
        assert forall|i: int| 0 <= i < s0.len() && pred(s0[i]) implies i <= pt by {
            assert(s0[i] == s[i]);
        }
        lemma_filter_last(s0, pred, pt);
        assert(s0[pt] == s[pt]);
    }
}

} // verus!
