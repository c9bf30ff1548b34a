//! The prerequisite graph: concepts and directed edges from a prerequisite to the
//! concept that depends on it, with the queries that read direct neighbours.
use vstd::prelude::*;
use crate::concept::{Concept, ConceptId};
use crate::laws::{law_dependents_one_per_edge, law_next_unlockable_exact, law_prerequisites_one_per_edge};
use crate::store::{ConceptMap, distinct_ids, has_id, ids_of, inserted, lemma_lookup, lookup};

verus! {

/// The characters of each identifier, in order.
pub open spec fn id_views(s: Seq<ConceptId>) -> Seq<Seq<char>> {
    s.map_values(|c: ConceptId| c@)
}

/// The characters of both ends of each edge, in order.
pub open spec fn edge_views(e: Seq<(ConceptId, ConceptId)>) -> Seq<(Seq<char>, Seq<char>)> {
    e.map_values(|p: (ConceptId, ConceptId)| (p.0@, p.1@))
}

/// The concepts behind a sequence of references.
pub open spec fn derefs(s: Seq<&Concept>) -> Seq<Concept> {
    s.map_values(|c: &Concept| *c)
}

/// `u` is a direct prerequisite of `v`: `u` is a concept of `cs` and some edge of `es`
/// goes from `u` to `v`.
pub open spec fn is_prereq(cs: Seq<Concept>, es: Seq<(Seq<char>, Seq<char>)>, v: Seq<char>, u: Seq<char>) -> bool {
    &&& has_id(cs, u)
    &&& exists|k: int| 0 <= k < es.len() && (#[trigger] es[k]).0 == u && es[k].1 == v
}

/// What `prerequisites_of(target)` returns: for each edge into `target`, in edge order,
/// the concept at its source, where the source is a concept.
pub open spec fn prereq_seq(cs: Seq<Concept>, es: Seq<(Seq<char>, Seq<char>)>, target: Seq<char>) -> Seq<Concept>
    decreases es.len(),
{
    if es.len() == 0 {
        Seq::empty()
    } else {
        let rest = prereq_seq(cs, es.drop_last(), target);
        let e = es.last();
        if e.1 == target && has_id(cs, e.0) {
            rest.push(lookup(cs, e.0))
        } else {
            rest
        }
    }
}

/// The edges with their directions reversed.
pub open spec fn flipped(es: Seq<(Seq<char>, Seq<char>)>) -> Seq<(Seq<char>, Seq<char>)> {
    es.map_values(|e: (Seq<char>, Seq<char>)| (e.1, e.0))
}

/// What `dependents(source)` returns: for each edge out of `source`, in edge order, the
/// concept at its target, where the target is a concept (the prerequisites of `source`
/// along the reversed edges).
pub open spec fn dependent_seq(cs: Seq<Concept>, es: Seq<(Seq<char>, Seq<char>)>, source: Seq<char>) -> Seq<Concept> {
    prereq_seq(cs, flipped(es), source)
}

/// An edge into `v` whose source is a concept of `cs`.
pub open spec fn edge_into(cs: Seq<Concept>, v: Seq<char>) -> spec_fn((Seq<char>, Seq<char>)) -> bool {
    |e: (Seq<char>, Seq<char>)| e.1 == v && has_id(cs, e.0)
}

/// An edge out of `u` whose target is a concept of `cs`.
pub open spec fn edge_from(cs: Seq<Concept>, u: Seq<char>) -> spec_fn((Seq<char>, Seq<char>)) -> bool {
    |e: (Seq<char>, Seq<char>)| e.0 == u && has_id(cs, e.1)
}

/// A concept that is not learned and whose direct prerequisites all are.
pub open spec fn learnable_next(
    cs: Seq<Concept>,
    es: Seq<(Seq<char>, Seq<char>)>,
    learned: Seq<Seq<char>>,
) -> spec_fn(Concept) -> bool {
    |c: Concept| !learned.contains(c.id@) && unlocked(cs, es, c.id@, learned)
}

/// The edges after adding `e` unless it is already present.
pub open spec fn with_edge(es: Seq<(Seq<char>, Seq<char>)>, e: (Seq<char>, Seq<char>)) -> Seq<(Seq<char>, Seq<char>)> {
    if es.contains(e) {
        es
    } else {
        es.push(e)
    }
}

/// Every direct prerequisite of `c` is among `learned`.
pub open spec fn unlocked(cs: Seq<Concept>, es: Seq<(Seq<char>, Seq<char>)>, c: Seq<char>, learned: Seq<Seq<char>>) -> bool {
    forall|u: Seq<char>| #[trigger] is_prereq(cs, es, c, u) ==> learned.contains(u)
}

/// What `next_unlockable` returns: the concepts of `s`, in order, that are not learned and
/// whose direct prerequisites all are.
pub open spec fn unlockable_seq(
    s: Seq<Concept>,
    cs: Seq<Concept>,
    es: Seq<(Seq<char>, Seq<char>)>,
    learned: Seq<Seq<char>>,
) -> Seq<Concept>
    decreases s.len(),
{
    if s.len() == 0 {
        Seq::empty()
    } else {
        let rest = unlockable_seq(s.drop_last(), cs, es, learned);
        let c = s.last();
        if !learned.contains(c.id@) && unlocked(cs, es, c.id@, learned) {
            rest.push(c)
        } else {
            rest
        }
    }
}

/// Whether `x` is among the identifiers of `list`.
pub fn contains_id(list: &[ConceptId], x: &ConceptId) -> (b: bool)
    ensures
        b == id_views(list@).contains(x@),
{
    let n = list.len();
    let mut i: usize = 0;
    while i < n
        invariant
            n == list@.len(),
            0 <= i <= n,
            forall|k: int| 0 <= k < i ==> (#[trigger] list@[k])@ != x@,
        decreases n - i,
    {
        if list[i].same(x) {
            assert(id_views(list@)[i as int] == x@);
            return true;
        }
        i = i + 1;
    }
    assert(!id_views(list@).contains(x@)) by {
        if id_views(list@).contains(x@) {
            let k = choose|k: int| 0 <= k < n && id_views(list@)[k] == x@;
            assert(list@[k]@ == x@);
        }
    }
    false
}

/// Directed prerequisite graph: edges go from prerequisite to dependent.
pub struct PrereqGraph {
    pub concepts: ConceptMap,
    pub edges: Vec<(ConceptId, ConceptId)>,
}

impl PrereqGraph {
    /// The concepts, in first-insertion order.
    pub open spec fn nodes(&self) -> Seq<Concept> {
        self.concepts@
    }

    /// The edges by the characters of their ends.
    pub open spec fn links(&self) -> Seq<(Seq<char>, Seq<char>)> {
        edge_views(self.edges@)
    }

    /// An empty graph.
    pub fn new() -> (g: PrereqGraph)
        ensures
            g.nodes() == Seq::<Concept>::empty(),
            g.edges@ == Seq::<(ConceptId, ConceptId)>::empty(),
    {
        PrereqGraph { concepts: ConceptMap::new(), edges: Vec::new() }
    }

    /// Adds a concept, replacing the one with the same identifier.
    pub fn add_concept(&mut self, concept: Concept)
        ensures
            final(self).nodes() == inserted(old(self).nodes(), concept),
            final(self).edges@ == old(self).edges@,
    {
        self.concepts.insert(concept);
    }

    /// Whether an edge from `from` to `to` is present.
    fn has_edge(&self, from: &ConceptId, to: &ConceptId) -> (b: bool)
        ensures
            b == self.links().contains((from@, to@)),
    {
        let m = self.edges.len();
        let mut k: usize = 0;
        while k < m
            invariant
                m == self.edges@.len(),
                0 <= k <= m,
                forall|j: int| 0 <= j < k ==> (#[trigger] self.links()[j]) != (from@, to@),
            decreases m - k,
        {
            if self.edges[k].0.same(from) && self.edges[k].1.same(to) {
                assert(self.links()[k as int] == (from@, to@));
                return true;
            }
            assert(self.links()[k as int] == (self.edges@[k as int].0@, self.edges@[k as int].1@));
            k = k + 1;
        }
        false
    }

    /// Adds the edge from `from` to `to` unless it is already present.
    pub fn add_prereq(&mut self, from: &str, to: &str)
        ensures
            final(self).nodes() == old(self).nodes(),
            old(self).links().contains((from@, to@)) ==> final(self).edges@ == old(self).edges@,
            !old(self).links().contains((from@, to@)) ==> {
                &&& final(self).edges@.len() == old(self).edges@.len() + 1
                &&& final(self).edges@.drop_last() == old(self).edges@
                &&& final(self).edges@.last().0@ == from@
                &&& final(self).edges@.last().1@ == to@
            },
            final(self).links() == with_edge(old(self).links(), (from@, to@)),
    {
        let from_id = ConceptId::new(from);
        let to_id = ConceptId::new(to);
        if !self.has_edge(&from_id, &to_id) {
            self.edges.push((from_id, to_id));
            assert(self.edges@.drop_last() =~= old(self).edges@);
            assert(self.links() =~= old(self).links().push((from@, to@)));
        }
    }

    /// Direct prerequisites of a concept.
    pub fn prerequisites_of(&self, concept: &ConceptId) -> (r: Vec<&Concept>)
        ensures
            derefs(r@) == prereq_seq(self.nodes(), self.links(), concept@),
            r@.len() == self.links().filter(edge_into(self.nodes(), concept@)).len(),
            forall|i: int| 0 <= i < r@.len() ==>
                *(#[trigger] r@[i]) == lookup(self.nodes(), self.links().filter(edge_into(self.nodes(), concept@))[i].0),
            self.links().no_duplicates() ==> ids_of(derefs(r@)).no_duplicates(),
    {
        proof {
            law_prerequisites_one_per_edge(self.nodes(), self.links(), concept@);
        }
        let m = self.edges.len();
        let mut r: Vec<&Concept> = Vec::new();
        let mut k: usize = 0;
        while k < m
            invariant
                m == self.edges@.len(),
                0 <= k <= m,
                derefs(r@) == prereq_seq(self.nodes(), self.links().take(k as int), concept@),
            decreases m - k,
        {
            let ghost before = r@;
            assert(self.links().take(k + 1).drop_last() =~= self.links().take(k as int));
            let e = &self.edges[k];
            if e.1.same(concept) {
                match self.concepts.get(&e.0) {
                    Some(c) => {
                        r.push(c);
                        assert(derefs(r@) =~= derefs(before).push(*c));
                    },
                    None => {},
                }
            }
            k = k + 1;
        }
        assert(self.links().take(m as int) =~= self.links());
        assert forall|i: int| 0 <= i < r@.len() implies
            *(#[trigger] r@[i]) == lookup(self.nodes(), self.links().filter(edge_into(self.nodes(), concept@))[i].0) by {
            assert(derefs(r@)[i] == *r@[i]);
        }
        r
    }

    /// Concepts that depend on this one (what unlocks after learning this).
    pub fn dependents(&self, concept: &ConceptId) -> (r: Vec<&Concept>)
        ensures
            derefs(r@) == dependent_seq(self.nodes(), self.links(), concept@),
            r@.len() == self.links().filter(edge_from(self.nodes(), concept@)).len(),
            forall|i: int| 0 <= i < r@.len() ==>
                *(#[trigger] r@[i]) == lookup(self.nodes(), self.links().filter(edge_from(self.nodes(), concept@))[i].1),
            self.links().no_duplicates() ==> ids_of(derefs(r@)).no_duplicates(),
    {
        proof {
            law_dependents_one_per_edge(self.nodes(), self.links(), concept@);
        }
        let m = self.edges.len();
        let mut r: Vec<&Concept> = Vec::new();
        let mut k: usize = 0;
        while k < m
            invariant
                m == self.edges@.len(),
                0 <= k <= m,
                derefs(r@) == dependent_seq(self.nodes(), self.links().take(k as int), concept@),
            decreases m - k,
        {
            assert(flipped(self.links().take(k + 1)).last() == (self.edges@[k as int].1@, self.edges@[k as int].0@));
            let ghost before = r@;
            assert(flipped(self.links().take(k + 1)).drop_last() =~= flipped(self.links().take(k as int)));
            let e = &self.edges[k];
            if e.0.same(concept) {
                match self.concepts.get(&e.1) {
                    Some(c) => {
                        r.push(c);
                        assert(derefs(r@) =~= derefs(before).push(*c));
                    },
                    None => {},
                }
            }
            k = k + 1;
        }
        assert(self.links().take(m as int) =~= self.links());
        assert forall|i: int| 0 <= i < r@.len() implies
            *(#[trigger] r@[i]) == lookup(self.nodes(), self.links().filter(edge_from(self.nodes(), concept@))[i].1) by {
            assert(derefs(r@)[i] == *r@[i]);
        }
        r
    }

    /// Check if all direct prerequisites of `concept` are in `learned`.
    pub fn is_unlocked(&self, concept: &ConceptId, learned: &[ConceptId]) -> (b: bool)
        ensures
            b == unlocked(self.nodes(), self.links(), concept@, id_views(learned@)),
    {
        let m = self.edges.len();
        let ghost es = self.links();
        let ghost cs = self.nodes();
        let ghost lv = id_views(learned@);
        let mut k: usize = 0;
        while k < m
            invariant
                m == self.edges@.len(),
                es == self.links(),
                cs == self.nodes(),
                lv == id_views(learned@),
                0 <= k <= m,
                forall|j: int| 0 <= j < k && (#[trigger] es[j]).1 == concept@ && has_id(cs, es[j].0) ==> lv.contains(es[j].0),
            decreases m - k,
        {
            let e = &self.edges[k];
            assert(es[k as int] == (e.0@, e.1@));
            if e.1.same(concept) && self.concepts.contains_key(&e.0) {
                if !contains_id(learned, &e.0) {
                    assert(is_prereq(cs, es, concept@, e.0@));
                    return false;
                }
            }
            k = k + 1;
        }
        assert forall|u: Seq<char>| #[trigger] is_prereq(cs, es, concept@, u) implies lv.contains(u) by {
            let j = choose|j: int| 0 <= j < es.len() && (#[trigger] es[j]).0 == u && es[j].1 == concept@;
        }
        true
    }

    /// What can be learned next, given what has already been learned.
    pub fn next_unlockable(&self, learned: &[ConceptId]) -> (r: Vec<&Concept>)
        ensures
            derefs(r@) == unlockable_seq(self.nodes(), self.nodes(), self.links(), id_views(learned@)),
            derefs(r@) == self.nodes().filter(learnable_next(self.nodes(), self.links(), id_views(learned@))),
            distinct_ids(derefs(r@)),
    {
        let n = self.concepts.len();
        let mut r: Vec<&Concept> = Vec::new();
        let mut i: usize = 0;
        while i < n
            invariant
                n == self.nodes().len(),
                0 <= i <= n,
                derefs(r@) == unlockable_seq(self.nodes().take(i as int), self.nodes(), self.links(), id_views(learned@)),
            decreases n - i,
        {
            let ghost before = r@;
            assert(self.nodes().take(i + 1).drop_last() =~= self.nodes().take(i as int));
            let c = self.concepts.at(i);
            if !contains_id(learned, &c.id) && self.is_unlocked(&c.id, learned) {
                r.push(c);
                assert(derefs(r@) =~= derefs(before).push(*c));
            }
            i = i + 1;
        }
        assert(self.nodes().take(n as int) =~= self.nodes());
        proof {
            law_next_unlockable_exact(self.nodes(), self.links(), id_views(learned@));
        }
        r
    }
}

impl Default for PrereqGraph {
    fn default() -> (g: PrereqGraph)
        ensures
            g.nodes() == Seq::<Concept>::empty(),
            g.edges@ == Seq::<(ConceptId, ConceptId)>::empty(),
    {
        PrereqGraph::new()
    }
}

/// The concepts that `prerequisites_of(v)` returns are exactly the concepts at the direct
/// prerequisites of `v`.
pub proof fn lemma_prereq_seq(cs: Seq<Concept>, es: Seq<(Seq<char>, Seq<char>)>, v: Seq<char>)
    ensures
        forall|j: int| 0 <= j < prereq_seq(cs, es, v).len() ==> {
            let c = #[trigger] prereq_seq(cs, es, v)[j];
            &&& has_id(cs, c.id@)
            &&& c == lookup(cs, c.id@)
            &&& is_prereq(cs, es, v, c.id@)
        },
        forall|u: Seq<char>| #[trigger] is_prereq(cs, es, v, u) ==>
            exists|j: int| 0 <= j < prereq_seq(cs, es, v).len() && (#[trigger] prereq_seq(cs, es, v)[j]).id@ == u,
    decreases es.len(),
{
    if es.len() > 0 {
        let es0 = es.drop_last();
        lemma_prereq_seq(cs, es0, v);
        let s0 = prereq_seq(cs, es0, v);
        let s = prereq_seq(cs, es, v);
        let e = es.last();
        assert forall|j: int| 0 <= j < s.len() implies {
            let c = #[trigger] s[j];
            &&& has_id(cs, c.id@)
            &&& c == lookup(cs, c.id@)
            &&& is_prereq(cs, es, v, c.id@)
        } by {
            if j < s0.len() {
                assert(s[j] == s0[j]);
                let c = s0[j];
                assert(is_prereq(cs, es0, v, c.id@));
                let k = choose|k: int| 0 <= k < es0.len() && (#[trigger] es0[k]).0 == c.id@ && es0[k].1 == v;
                assert(es[k] == es0[k]);
            } else {
                lemma_lookup(cs, e.0);
                assert(es[es.len() - 1] == e);
            }
        }
        assert forall|u: Seq<char>| #[trigger] is_prereq(cs, es, v, u) implies
            exists|j: int| 0 <= j < s.len() && (#[trigger] s[j]).id@ == u by {
            let k = choose|k: int| 0 <= k < es.len() && (#[trigger] es[k]).0 == u && es[k].1 == v;
            if k < es.len() - 1 {
                assert(es0[k] == es[k]);
                assert(is_prereq(cs, es0, v, u));
                let j = choose|j: int| 0 <= j < s0.len() && (#[trigger] s0[j]).id@ == u;
                assert(s[j] == s0[j]);
            } else {
                lemma_lookup(cs, u);
                assert(s[s.len() - 1].id@ == u);
            }
        }
    }
}

} // verus!
