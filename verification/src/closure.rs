//! The transitive closure of prerequisites, by depth-first search.
use vstd::prelude::*;
use crate::concept::{Concept, ConceptId};
use crate::graph::{PrereqGraph, contains_id, derefs, id_views, is_prereq, lemma_prereq_seq, prereq_seq};
use crate::store::{distinct_ids, has_id, ids_of, lemma_lookup, lookup};

verus! {

/// Step `i` of `p` goes from `p[i]` to one of its direct prerequisites `p[i + 1]`.
pub open spec fn chain_step(cs: Seq<Concept>, es: Seq<(Seq<char>, Seq<char>)>, p: Seq<Seq<char>>, i: int) -> bool {
    is_prereq(cs, es, p[i], p[i + 1])
}

/// Each element of `p` after the first is a direct prerequisite of the one before it.
pub open spec fn prereq_chain(cs: Seq<Concept>, es: Seq<(Seq<char>, Seq<char>)>, p: Seq<Seq<char>>) -> bool {
    forall|i: int| 0 <= i < p.len() - 1 ==> #[trigger] chain_step(cs, es, p, i)
}

/// `x` is a prerequisite of `root`, directly or through a chain of prerequisites.
pub open spec fn reaches(cs: Seq<Concept>, es: Seq<(Seq<char>, Seq<char>)>, root: Seq<char>, x: Seq<char>) -> bool {
    exists|p: Seq<Seq<char>>|
        #[trigger] prereq_chain(cs, es, p) && p.len() >= 2 && p[0] == root && p.last() == x
}

/// A direct prerequisite of `root`, or of a transitive prerequisite of `root`, is a
/// transitive prerequisite of `root`.
pub proof fn lemma_reaches_step(
    cs: Seq<Concept>,
    es: Seq<(Seq<char>, Seq<char>)>,
    root: Seq<char>,
    c: Seq<char>,
    u: Seq<char>,
)
    requires
        c == root || reaches(cs, es, root, c),
        is_prereq(cs, es, c, u),
    ensures
        reaches(cs, es, root, u),
{
    if c == root {
        let p = seq![root, u];
        assert(chain_step(cs, es, p, 0));
        assert(prereq_chain(cs, es, p));
    } else {
        let q = choose|q: Seq<Seq<char>>|
            #[trigger] prereq_chain(cs, es, q) && q.len() >= 2 && q[0] == root && q.last() == c;
        let p = q.push(u);
        assert forall|i: int| 0 <= i < p.len() - 1 implies #[trigger] chain_step(cs, es, p, i) by {
            if i < q.len() - 1 {
                assert(chain_step(cs, es, q, i));
            }
        }
        assert(prereq_chain(cs, es, p));
    }
}

/// The identifiers of the direct prerequisites of `v`, in edge order (as `prerequisites_of`
/// returns them).
pub open spec fn prereq_ids(cs: Seq<Concept>, es: Seq<(Seq<char>, Seq<char>)>, v: Seq<char>) -> Seq<Seq<char>> {
    ids_of(prereq_seq(cs, es, v))
}

/// Depth-first search from `v`: `visited` extended by each direct prerequisite of `v` not
/// yet visited, in edge order, each followed by its own search. `fuel` bounds the depth;
/// it is never reached when it is at least the number of concepts not yet visited.
pub open spec fn dfs_visit(
    cs: Seq<Concept>,
    es: Seq<(Seq<char>, Seq<char>)>,
    v: Seq<char>,
    visited: Seq<Seq<char>>,
    fuel: nat,
) -> Seq<Seq<char>>
    decreases fuel, prereq_ids(cs, es, v).len() + 1,
{
    dfs_kids(cs, es, prereq_ids(cs, es, v), visited, fuel)
}

/// Depth-first search through `kids` in order, skipping those already visited.
pub open spec fn dfs_kids(
    cs: Seq<Concept>,
    es: Seq<(Seq<char>, Seq<char>)>,
    kids: Seq<Seq<char>>,
    visited: Seq<Seq<char>>,
    fuel: nat,
) -> Seq<Seq<char>>
    decreases fuel, kids.len(),
{
    if kids.len() == 0 {
        visited
    } else {
        let k = kids[0];
        let after = if visited.contains(k) || fuel == 0 {
            visited
        } else {
            dfs_visit(cs, es, k, visited.push(k), (fuel - 1) as nat)
        };
        dfs_kids(cs, es, kids.drop_first(), after, fuel)
    }
}

/// Not among `visited`.
pub open spec fn not_in(visited: Seq<Seq<char>>) -> spec_fn(Seq<char>) -> bool {
    |x: Seq<char>| !visited.contains(x)
}

/// The number of concepts whose identifiers are not among `visited`.
pub open spec fn unvisited_count(cs: Seq<Concept>, visited: Seq<Seq<char>>) -> nat {
    ids_of(cs).filter(not_in(visited)).len()
}

/// The order in which `all_prerequisites` lists the transitive prerequisites of `v`: the
/// depth-first preorder over `prerequisites_of`, each concept once.
pub open spec fn dfs_order(cs: Seq<Concept>, es: Seq<(Seq<char>, Seq<char>)>, v: Seq<char>) -> Seq<Seq<char>> {
    dfs_visit(cs, es, v, Seq::empty(), unvisited_count(cs, Seq::empty()))
}

/// `x` is reached from `v` through a chain of direct prerequisites whose elements after `v`
/// all lie outside `avoid`.
pub open spec fn reaches_avoiding(
    cs: Seq<Concept>,
    es: Seq<(Seq<char>, Seq<char>)>,
    v: Seq<char>,
    avoid: Seq<Seq<char>>,
    x: Seq<char>,
) -> bool {
    exists|p: Seq<Seq<char>>|
        #[trigger] prereq_chain(cs, es, p) && p.len() >= 2 && p[0] == v && p.last() == x
            && forall|i: int| 1 <= i < p.len() ==> !avoid.contains(#[trigger] p[i])
}

/// What a call appended to a sequence: the part after the old length.
pub open spec fn appended<A>(after: Seq<A>, before: Seq<A>) -> Seq<A> {
    after.skip(before.len() as int)
}

proof fn lemma_filter_weaker<A>(s: Seq<A>, p: spec_fn(A) -> bool, q: spec_fn(A) -> bool)
    requires
        forall|x: A| #[trigger] p(x) ==> q(x),
    ensures
        s.filter(p).len() <= s.filter(q).len(),
    decreases s.len(),
{
    reveal(Seq::filter);
    if s.len() > 0 {
        lemma_filter_weaker(s.drop_last(), p, q);
    }
}

proof fn lemma_filter_strictly_weaker<A>(s: Seq<A>, p: spec_fn(A) -> bool, q: spec_fn(A) -> bool, i: int)
    requires
        forall|x: A| #[trigger] p(x) ==> q(x),
        0 <= i < s.len(),
        q(s[i]),
        !p(s[i]),
    ensures
        s.filter(p).len() < s.filter(q).len(),
    decreases s.len(),
{
    reveal(Seq::filter);
    let s0 = s.drop_last();
    if i == s.len() - 1 {
        lemma_filter_weaker(s0, p, q);
    } else {
        assert(s0[i] == s[i]);
        lemma_filter_strictly_weaker(s0, p, q, i);
    }
}

/// Visiting more never leaves more concepts unvisited.
pub proof fn lemma_unvisited_monotone(cs: Seq<Concept>, a: Seq<Seq<char>>, b: Seq<Seq<char>>)
    requires
        forall|x: Seq<char>| a.contains(x) ==> b.contains(x),
    ensures
        unvisited_count(cs, b) <= unvisited_count(cs, a),
{
    lemma_filter_weaker(ids_of(cs), not_in(b), not_in(a));
}

/// Visiting an unvisited concept leaves fewer concepts unvisited.
pub proof fn lemma_unvisited_visit(cs: Seq<Concept>, a: Seq<Seq<char>>, k: Seq<char>)
    requires
        has_id(cs, k),
        !a.contains(k),
    ensures
        unvisited_count(cs, a.push(k)) < unvisited_count(cs, a),
{
    let b = a.push(k);
    assert forall|x: Seq<char>| #[trigger] not_in(b)(x) implies not_in(a)(x) by {
        if a.contains(x) {
            let i = choose|i: int| 0 <= i < a.len() && a[i] == x;
            assert(b[i] == x);
        }
    }
    assert(b[a.len() as int] == k);
    let j = choose|j: int| 0 <= j < cs.len() && (#[trigger] cs[j]).id@ == k;
    assert(ids_of(cs)[j] == k);
    lemma_filter_strictly_weaker(ids_of(cs), not_in(b), not_in(a), j);
}

/// With enough fuel the depth bound does not matter, and the search only appends to
/// `visited`.
pub proof fn lemma_dfs_kids(
    cs: Seq<Concept>,
    es: Seq<(Seq<char>, Seq<char>)>,
    kids: Seq<Seq<char>>,
    visited: Seq<Seq<char>>,
    f1: nat,
    f2: nat,
)
    requires
        forall|i: int| 0 <= i < kids.len() ==> has_id(cs, #[trigger] kids[i]),
        f1 >= unvisited_count(cs, visited),
        f2 >= unvisited_count(cs, visited),
    ensures
        dfs_kids(cs, es, kids, visited, f1) == dfs_kids(cs, es, kids, visited, f2),
        dfs_kids(cs, es, kids, visited, f1).len() >= visited.len(),
        dfs_kids(cs, es, kids, visited, f1).take(visited.len() as int) == visited,
    decreases f1, kids.len(),
{
    if kids.len() > 0 {
        let k = kids[0];
        let rest = kids.drop_first();
        assert forall|i: int| 0 <= i < rest.len() implies has_id(cs, #[trigger] rest[i]) by {
            assert(rest[i] == kids[i + 1]);
        }
        if visited.contains(k) {
            lemma_dfs_kids(cs, es, rest, visited, f1, f2);
            assert(dfs_kids(cs, es, kids, visited, f1) == dfs_kids(cs, es, rest, visited, f1));
            assert(dfs_kids(cs, es, kids, visited, f2) == dfs_kids(cs, es, rest, visited, f2));
        } else {
            lemma_unvisited_visit(cs, visited, k);
            let w = visited.push(k);
            let ks = prereq_ids(cs, es, k);
            lemma_prereq_seq(cs, es, k);
            assert forall|i: int| 0 <= i < ks.len() implies has_id(cs, #[trigger] ks[i]) by {
                assert(ks[i] == prereq_seq(cs, es, k)[i].id@);
            }
            lemma_dfs_kids(cs, es, ks, w, (f1 - 1) as nat, (f2 - 1) as nat);
            let after = dfs_visit(cs, es, k, w, (f1 - 1) as nat);
            assert forall|x: Seq<char>| visited.contains(x) implies after.contains(x) by {
                let i = choose|i: int| 0 <= i < visited.len() && visited[i] == x;
                assert(after.take(w.len() as int)[i] == w[i]);
                assert(after[i] == x);
            }
            lemma_unvisited_monotone(cs, visited, after);
            lemma_dfs_kids(cs, es, rest, after, f1, f2);
            assert(f1 > 0 && f2 > 0);
            assert(after == dfs_kids(cs, es, ks, w, (f1 - 1) as nat));
            assert(dfs_visit(cs, es, k, w, (f2 - 1) as nat) == dfs_kids(cs, es, ks, w, (f2 - 1) as nat));
            assert(dfs_kids(cs, es, kids, visited, f1) == dfs_kids(cs, es, rest, after, f1));
            assert(dfs_kids(cs, es, kids, visited, f2) == dfs_kids(cs, es, rest, dfs_visit(cs, es, k, w, (f2 - 1) as nat), f2));
            let r = dfs_kids(cs, es, rest, after, f1);
            assert(r.take(visited.len() as int) =~= visited) by {
                assert forall|i: int| 0 <= i < visited.len() implies r[i] == visited[i] by {
                    assert(r.take(after.len() as int)[i] == after[i]);
                    assert(after.take(w.len() as int)[i] == w[i]);
                }
            }
        }
    }
}

/// A chain from `k` avoiding `w` extends, through `v`, to a chain from `v` avoiding the
/// smaller `avoid`.
proof fn lemma_avoiding_prepend(
    cs: Seq<Concept>,
    es: Seq<(Seq<char>, Seq<char>)>,
    v: Seq<char>,
    k: Seq<char>,
    w: Seq<Seq<char>>,
    avoid: Seq<Seq<char>>,
    x: Seq<char>,
)
    requires
        is_prereq(cs, es, v, k),
        !avoid.contains(k),
        forall|y: Seq<char>| avoid.contains(y) ==> w.contains(y),
        reaches_avoiding(cs, es, k, w, x),
    ensures
        reaches_avoiding(cs, es, v, avoid, x),
{
    let q = choose|q: Seq<Seq<char>>|
        #[trigger] prereq_chain(cs, es, q) && q.len() >= 2 && q[0] == k && q.last() == x
            && forall|i: int| 1 <= i < q.len() ==> !w.contains(#[trigger] q[i]);
    let p = seq![v] + q;
    assert forall|i: int| 0 <= i < p.len() - 1 implies #[trigger] chain_step(cs, es, p, i) by {
        if i == 0 {
            assert(p[0] == v && p[1] == k);
        } else {
            assert(chain_step(cs, es, q, i - 1));
            assert(p[i] == q[i - 1] && p[i + 1] == q[i]);
        }
    }
    assert forall|i: int| 1 <= i < p.len() implies !avoid.contains(#[trigger] p[i]) by {
        assert(p[i] == q[i - 1]);
        if i > 1 {
            assert(!w.contains(q[i - 1]));
        }
    }
    assert(prereq_chain(cs, es, p));
    assert(p.last() == x);
}

/// Every element after the first of a chain from `v` avoiding `avoid` lies in `vs`, when `vs`
/// starts with `avoid` and holds the direct prerequisites of `v` and of its later elements.
proof fn lemma_avoiding_within(
    cs: Seq<Concept>,
    es: Seq<(Seq<char>, Seq<char>)>,
    v: Seq<char>,
    avoid: Seq<Seq<char>>,
    vs: Seq<Seq<char>>,
    p: Seq<Seq<char>>,
    k: int,
)
    requires
        vs.len() >= avoid.len(),
        vs.take(avoid.len() as int) == avoid,
        forall|u: Seq<char>| #[trigger] is_prereq(cs, es, v, u) ==> vs.contains(u),
        forall|j: int, u: Seq<char>| avoid.len() <= j < vs.len() && #[trigger] is_prereq(cs, es, vs[j], u)
            ==> vs.contains(u),
        prereq_chain(cs, es, p),
        p.len() >= 2,
        p[0] == v,
        forall|i: int| 1 <= i < p.len() ==> !avoid.contains(#[trigger] p[i]),
        1 <= k < p.len(),
    ensures
        vs.contains(p[k]),
    decreases k,
{
    assert(chain_step(cs, es, p, k - 1));
    if k > 1 {
        lemma_avoiding_within(cs, es, v, avoid, vs, p, k - 1);
        let j = choose|j: int| 0 <= j < vs.len() && vs[j] == p[k - 1];
        if j < avoid.len() {
            assert(vs.take(avoid.len() as int)[j] == avoid[j]);
            assert(avoid.contains(p[k - 1]));
        }
    }
}

impl PrereqGraph {
    /// Transitive closure of prerequisites: every concept that is a prerequisite of
    /// `concept`, directly or through other prerequisites, once each, in depth-first
    /// preorder over `prerequisites_of`.
    pub fn all_prerequisites(&self, concept: &ConceptId) -> (r: Vec<&Concept>)
        ensures
            distinct_ids(derefs(r@)),
            forall|i: int| 0 <= i < r@.len() ==> {
                &&& has_id(self.nodes(), (#[trigger] r@[i]).id@)
                &&& *r@[i] == lookup(self.nodes(), r@[i].id@)
            },
            forall|x: Seq<char>| (exists|i: int| 0 <= i < r@.len() && (#[trigger] r@[i]).id@ == x)
                <==> reaches(self.nodes(), self.links(), concept@, x),
            ids_of(derefs(r@)) == dfs_order(self.nodes(), self.links(), concept@),
    {
        let mut visited: Vec<ConceptId> = Vec::new();
        let mut result: Vec<&Concept> = Vec::new();
        let ghost none: Seq<Seq<char>> = Seq::empty();
        assert(id_views(visited@) =~= none);
        assert(derefs(result@) =~= Seq::<Concept>::empty());
        let ghost r_before = derefs(result@);
        let ghost v_before = id_views(visited@);
        self.collect_all_prereqs(concept, &mut visited, &mut result);
        let ghost cs = self.nodes();
        let ghost es = self.links();
        let ghost rs = derefs(result@);
        assert(appended(rs, r_before) =~= rs);
        let ghost ids = ids_of(rs);
        assert(v_before =~= none);
        assert forall|i: int| 0 <= i < result@.len() implies {
            &&& has_id(cs, (#[trigger] result@[i]).id@)
            &&& *result@[i] == lookup(cs, result@[i].id@)
        } by {
            assert(rs[i] == *result@[i]);
        }
        assert(distinct_ids(rs)) by {
            assert forall|i: int, j: int| 0 <= i < rs.len() && 0 <= j < rs.len() && i != j
                implies (#[trigger] rs[i]).id@ != (#[trigger] rs[j]).id@ by {
                assert(ids[i] == rs[i].id@ && ids[j] == rs[j].id@);
            }
        }
        assert forall|x: Seq<char>| (exists|i: int| 0 <= i < result@.len() && (#[trigger] result@[i]).id@ == x)
            <==> reaches(cs, es, concept@, x) by {
            if exists|i: int| 0 <= i < result@.len() && (#[trigger] result@[i]).id@ == x {
                let i = choose|i: int| 0 <= i < result@.len() && (#[trigger] result@[i]).id@ == x;
                assert(ids[i] == x);
                assert(ids_of(appended(rs, r_before)).contains(x));
                assert(reaches_avoiding(cs, es, concept@, none, x));
                let p = choose|p: Seq<Seq<char>>|
                    #[trigger] prereq_chain(cs, es, p) && p.len() >= 2 && p[0] == concept@ && p.last() == x
                        && forall|i: int| 1 <= i < p.len() ==> !none.contains(#[trigger] p[i]);
            }
            if reaches(cs, es, concept@, x) {
                let p = choose|p: Seq<Seq<char>>|
                    #[trigger] prereq_chain(cs, es, p) && p.len() >= 2 && p[0] == concept@ && p.last() == x;
                assert forall|i: int| 1 <= i < p.len() implies !none.contains(#[trigger] p[i]) by {}
                assert(reaches_avoiding(cs, es, concept@, none, x));
                assert(!v_before.contains(x));
                assert(ids_of(appended(rs, r_before)).contains(x));
                assert(ids.contains(x));
                let i = choose|i: int| 0 <= i < ids.len() && ids[i] == x;
                assert(result@[i].id@ == x);
            }
        }
        result
    }

    /// Visits the direct prerequisites of `concept` not yet visited, each followed by its own
    /// prerequisites, appending each newly visited concept to `visited` and `result`.
    fn collect_all_prereqs<'a>(&'a self, concept: &ConceptId, visited: &mut Vec<ConceptId>, result: &mut Vec<&'a Concept>)
        ensures
            derefs(final(result)@) == derefs(old(result)@) + appended(derefs(final(result)@), derefs(old(result)@)),
            id_views(final(visited)@) == id_views(old(visited)@) + ids_of(appended(derefs(final(result)@), derefs(old(result)@))),
            forall|i: int| 0 <= i < appended(derefs(final(result)@), derefs(old(result)@)).len() ==> {
                let c = #[trigger] appended(derefs(final(result)@), derefs(old(result)@))[i];
                &&& has_id(self.nodes(), c.id@)
                &&& c == lookup(self.nodes(), c.id@)
            },
            ids_of(appended(derefs(final(result)@), derefs(old(result)@))).no_duplicates(),
            forall|x: Seq<char>| #[trigger] ids_of(appended(derefs(final(result)@), derefs(old(result)@))).contains(x)
                <==> !id_views(old(visited)@).contains(x)
                && reaches_avoiding(self.nodes(), self.links(), concept@, id_views(old(visited)@), x),
            id_views(final(visited)@) == dfs_visit(self.nodes(), self.links(), concept@, id_views(old(visited)@),
                unvisited_count(self.nodes(), id_views(old(visited)@))),
            forall|u: Seq<char>| #[trigger] is_prereq(self.nodes(), self.links(), concept@, u)
                ==> id_views(final(visited)@).contains(u),
            forall|j: int, u: Seq<char>| old(visited)@.len() <= j < final(visited)@.len()
                && #[trigger] is_prereq(self.nodes(), self.links(), id_views(final(visited)@)[j], u)
                ==> id_views(final(visited)@).contains(u),
        decreases unvisited_count(self.nodes(), id_views(old(visited)@)),
    {
        let ghost cs = self.nodes();
        let ghost es = self.links();
        let ghost v0 = id_views(visited@);
        let ghost r0 = derefs(result@);
        let ghost n0 = v0.len();
        let ghost m0 = r0.len();
        let ghost f0 = unvisited_count(cs, v0);
        let n = self.concepts.len();
        let prereqs = self.prerequisites_of(concept);
        proof {
            lemma_prereq_seq(cs, es, concept@);
        }
        let ghost ps = derefs(prereqs@);
        let ghost kids = prereq_ids(cs, es, concept@);
        assert(kids.skip(0) =~= kids);
        assert(id_views(visited@).take(n0 as int) =~= v0);
        assert(derefs(result@).take(m0 as int) =~= r0);
        let count = prereqs.len();
        let mut i: usize = 0;
        while i < count
            invariant
                cs == self.nodes(),
                es == self.links(),
                distinct_ids(cs),
                n == cs.len(),
                count == prereqs@.len(),
                ps == derefs(prereqs@),
                ps == prereq_seq(cs, es, concept@),
                kids == ids_of(ps),
                forall|j: int| 0 <= j < ps.len() ==> {
                    let c = #[trigger] ps[j];
                    &&& has_id(cs, c.id@)
                    &&& c == lookup(cs, c.id@)
                    &&& is_prereq(cs, es, concept@, c.id@)
                },
                0 <= i <= count,
                n0 == old(visited)@.len(),
                v0 == id_views(old(visited)@),
                m0 == r0.len(),
                f0 == unvisited_count(cs, v0),
                id_views(visited@).len() >= n0,
                id_views(visited@).take(n0 as int) == v0,
                derefs(result@).len() >= m0,
                derefs(result@).take(m0 as int) == r0,
                derefs(result@).len() - m0 == id_views(visited@).len() - n0,
                forall|j: int| n0 <= j < id_views(visited@).len() ==> {
                    let x = #[trigger] id_views(visited@)[j];
                    &&& has_id(cs, x)
                    &&& derefs(result@)[m0 + j - n0] == lookup(cs, x)
                    &&& !v0.contains(x)
                    &&& reaches_avoiding(cs, es, concept@, v0, x)
                },
                forall|j1: int, j2: int| n0 <= j1 < j2 < id_views(visited@).len()
                    ==> #[trigger] id_views(visited@)[j1] != #[trigger] id_views(visited@)[j2],
                forall|j: int, u: Seq<char>| n0 <= j < id_views(visited@).len()
                    && #[trigger] is_prereq(cs, es, id_views(visited@)[j], u) ==> id_views(visited@).contains(u),
                forall|j: int| 0 <= j < i ==> id_views(visited@).contains((#[trigger] ps[j]).id@),
                forall|x: Seq<char>| v0.contains(x) ==> id_views(visited@).contains(x),
                f0 >= unvisited_count(cs, id_views(visited@)),
                dfs_visit(cs, es, concept@, v0, f0) == dfs_kids(cs, es, kids.skip(i as int), id_views(visited@), f0),
            decreases count - i,
        {
            let p: &'a Concept = prereqs[i];
            assert(*p == ps[i as int]);
            let ghost vb = id_views(visited@);
            let ghost rb = derefs(result@);
            proof {
                let rest = kids.skip(i as int);
                assert(rest[0] == p.id@);
                assert(rest.drop_first() =~= kids.skip(i + 1));
            }
            if !contains_id(visited.as_slice(), &p.id) {
                proof {
                    lemma_lookup(cs, p.id@);
                    lemma_unvisited_visit(cs, vb, p.id@);
                }
                visited.push(p.id.duplicate());
                result.push(p);
                let ghost w = id_views(visited@);
                let ghost rw = derefs(result@);
                assert(w =~= vb.push(p.id@));
                assert(rw =~= rb.push(*p));
                self.collect_all_prereqs(&p.id, visited, result);
                let ghost vc = id_views(visited@);
                let ghost rc = derefs(result@);
                let ghost nk = appended(rc, rw);
                proof {
                    let ks = prereq_ids(cs, es, p.id@);
                    lemma_prereq_seq(cs, es, p.id@);
                    assert forall|j: int| 0 <= j < ks.len() implies has_id(cs, #[trigger] ks[j]) by {
                        assert(ks[j] == prereq_seq(cs, es, p.id@)[j].id@);
                    }
                    lemma_dfs_kids(cs, es, ks, w, (f0 - 1) as nat, unvisited_count(cs, w));
                    assert(f0 > 0);
                    assert(vc == dfs_kids(cs, es, ks, w, unvisited_count(cs, w)));
                    let after = dfs_visit(cs, es, p.id@, w, (f0 - 1) as nat);
                    assert(after == dfs_kids(cs, es, ks, w, (f0 - 1) as nat));
                    assert(vc == after);
                    assert(!vb.contains(p.id@));
                    assert(dfs_kids(cs, es, kids.skip(i as int), vb, f0) == dfs_kids(cs, es, kids.skip(i + 1), after, f0));
                    assert(vc == w + ids_of(nk));
                    assert(rc == rw + nk);
                    // Positions below |w| keep their old values.
                    assert forall|j: int| 0 <= j < w.len() implies vc[j] == w[j] by {}
                    assert forall|j: int| 0 <= j < rw.len() implies rc[j] == rw[j] by {}
                    assert forall|x: Seq<char>| v0.contains(x) implies vc.contains(x) by {
                        let j = choose|j: int| 0 <= j < vb.len() && vb[j] == x;
                        assert(vc[j] == x);
                    }
                    assert forall|x: Seq<char>| vb.contains(x) implies vc.contains(x) by {
                        let j = choose|j: int| 0 <= j < vb.len() && vb[j] == x;
                        assert(vc[j] == x);
                    }
                    lemma_unvisited_monotone(cs, v0, vc);
                    assert(vc.take(n0 as int) =~= v0) by {
                        assert forall|j: int| 0 <= j < n0 implies vc[j] == v0[j] by {
                            assert(vb.take(n0 as int)[j] == v0[j]);
                        }
                    }
                    assert(rc.take(m0 as int) =~= r0) by {
                        assert forall|j: int| 0 <= j < m0 implies rc[j] == r0[j] by {
                            assert(rb.take(m0 as int)[j] == r0[j]);
                        }
                    }
                    // The newly visited entries.
                    assert forall|j: int| n0 <= j < vc.len() implies {
                        let x = #[trigger] vc[j];
                        &&& has_id(cs, x)
                        &&& rc[m0 + j - n0] == lookup(cs, x)
                        &&& !v0.contains(x)
                        &&& reaches_avoiding(cs, es, concept@, v0, x)
                    } by {
                        let x = vc[j];
                        if j < vb.len() {
                            assert(vb[j] == x);
                            assert(rc[m0 + j - n0] == rb[m0 + j - n0]);
                        } else if j == vb.len() {
                            assert(x == p.id@);
                            assert(rc[m0 + j - n0] == rw[m0 + j - n0]);
                            assert(!vb.contains(x));
                            assert(!v0.contains(x));
                            let c = seq![concept@, x];
                            assert(chain_step(cs, es, c, 0));
                            assert(prereq_chain(cs, es, c));
                            assert forall|i2: int| 1 <= i2 < c.len() implies !v0.contains(#[trigger] c[i2]) by {}
                        } else {
                            let t = j - w.len();
                            assert(ids_of(nk)[t] == x);
                            assert(ids_of(nk).contains(x));
                            assert(nk[t] == rc[rw.len() + t]);
                            assert(has_id(cs, nk[t].id@));
                            assert(!w.contains(x));
                            assert(!v0.contains(x));
                            assert forall|y: Seq<char>| v0.contains(y) implies w.contains(y) by {
                                let j2 = choose|j2: int| 0 <= j2 < vb.len() && vb[j2] == y;
                                assert(w[j2] == y);
                            }
                            assert(!v0.contains(p.id@));
                            lemma_avoiding_prepend(cs, es, concept@, p.id@, w, v0, x);
                        }
                    }
                    assert forall|j1: int, j2: int| n0 <= j1 < j2 < vc.len()
                        implies #[trigger] vc[j1] != #[trigger] vc[j2] by {
                        if j2 < vb.len() {
                            assert(vb[j1] == vc[j1] && vb[j2] == vc[j2]);
                        } else if j2 == vb.len() {
                            assert(vb[j1] == vc[j1]);
                            assert(vb.contains(vc[j1]));
                        } else {
                            let t2 = j2 - w.len();
                            assert(ids_of(nk)[t2] == vc[j2]);
                            assert(ids_of(nk).contains(vc[j2]));
                            assert(!w.contains(vc[j2]));
                            if j1 < w.len() {
                                assert(w[j1] == vc[j1]);
                            } else {
                                let t1 = j1 - w.len();
                                assert(ids_of(nk)[t1] == vc[j1]);
                            }
                        }
                    }
                    assert forall|j: int, u: Seq<char>| n0 <= j < vc.len()
                        && #[trigger] is_prereq(cs, es, vc[j], u) implies vc.contains(u) by {
                        if j < vb.len() {
                            assert(vb[j] == vc[j]);
                            assert(vb.contains(u));
                            let j2 = choose|j2: int| 0 <= j2 < vb.len() && vb[j2] == u;
                            assert(vc[j2] == u);
                        } else if j == vb.len() {
                            assert(vc[j] == p.id@);
                        }
                    }
                    assert forall|j: int| 0 <= j < i + 1 implies vc.contains((#[trigger] ps[j]).id@) by {
                        if j < i {
                            let j2 = choose|j2: int| 0 <= j2 < vb.len() && vb[j2] == ps[j].id@;
                            assert(vc[j2] == ps[j].id@);
                        } else {
                            assert(vc[vb.len() as int] == p.id@);
                        }
                    }
                }
            } else {
                proof {
                    assert forall|j: int| 0 <= j < i + 1 implies id_views(visited@).contains((#[trigger] ps[j]).id@) by {
                    }
                    assert(dfs_kids(cs, es, kids.skip(i as int), vb, f0) == dfs_kids(cs, es, kids.skip(i + 1), vb, f0));
                }
            }
            i = i + 1;
        }
        proof {
            let vc = id_views(visited@);
            let rc = derefs(result@);
            let nn = appended(rc, r0);
            assert(kids.skip(count as int) =~= Seq::<Seq<char>>::empty());
            assert(rc =~= r0 + nn) by {
                assert forall|j: int| 0 <= j < m0 implies rc[j] == r0[j] by {
                    assert(rc.take(m0 as int)[j] == r0[j]);
                }
            }
            assert forall|t: int| 0 <= t < nn.len() implies ids_of(nn)[t] == vc[n0 + t] by {
                assert(nn[t] == rc[m0 + t]);
                assert(rc[m0 + (n0 + t) - n0] == lookup(cs, vc[n0 + t]));
                lemma_lookup(cs, vc[n0 + t]);
            }
            assert(vc =~= v0 + ids_of(nn)) by {
                assert forall|j: int| 0 <= j < n0 implies vc[j] == v0[j] by {
                    assert(vc.take(n0 as int)[j] == v0[j]);
                }
            }
            assert forall|t: int| 0 <= t < nn.len() implies {
                let c = #[trigger] nn[t];
                &&& has_id(cs, c.id@)
                &&& c == lookup(cs, c.id@)
            } by {
                assert(nn[t] == rc[m0 + t]);
                assert(rc[m0 + (n0 + t) - n0] == lookup(cs, vc[n0 + t]));
                lemma_lookup(cs, vc[n0 + t]);
            }
            assert(ids_of(nn).no_duplicates()) by {
                assert forall|a: int, b: int| 0 <= a < nn.len() && 0 <= b < nn.len() && a != b
                    implies ids_of(nn)[a] != ids_of(nn)[b] by {
                    if a < b {
                        assert(vc[n0 + a] != vc[n0 + b]);
                    } else {
                        assert(vc[n0 + b] != vc[n0 + a]);
                    }
                }
            }
            assert forall|x: Seq<char>| #[trigger] ids_of(nn).contains(x)
                <==> !v0.contains(x) && reaches_avoiding(cs, es, concept@, v0, x) by {
                if ids_of(nn).contains(x) {
                    let t = choose|t: int| 0 <= t < nn.len() && ids_of(nn)[t] == x;
                    assert(vc[n0 + t] == x);
                }
                if !v0.contains(x) && reaches_avoiding(cs, es, concept@, v0, x) {
                    let pth = choose|pth: Seq<Seq<char>>|
                        #[trigger] prereq_chain(cs, es, pth) && pth.len() >= 2 && pth[0] == concept@ && pth.last() == x
                            && forall|i2: int| 1 <= i2 < pth.len() ==> !v0.contains(#[trigger] pth[i2]);
                    assert forall|u: Seq<char>| #[trigger] is_prereq(cs, es, concept@, u) implies vc.contains(u) by {
                        let j = choose|j: int| 0 <= j < ps.len() && (#[trigger] ps[j]).id@ == u;
                    }
                    lemma_avoiding_within(cs, es, concept@, v0, vc, pth, pth.len() - 1);
                    let j = choose|j: int| 0 <= j < vc.len() && vc[j] == x;
                    if j < n0 {
                        assert(vc.take(n0 as int)[j] == v0[j]);
                    } else {
                        assert(ids_of(nn)[j - n0] == x);
                    }
                }
            }
            assert forall|u: Seq<char>| #[trigger] is_prereq(cs, es, concept@, u) implies vc.contains(u) by {
                let j = choose|j: int| 0 <= j < ps.len() && (#[trigger] ps[j]).id@ == u;
            }
        }
    }
}

} // verus!
