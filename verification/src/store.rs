//! `ConceptMap`: the concepts of a graph, keyed by their identifiers.
//!
//! Its contents are a sequence of concepts in the order in which their keys were
//! first inserted; no two of them share an identifier.
use vstd::prelude::*;
use crate::concept::{Concept, ConceptId};

verus! {

/// The identifiers of a sequence of concepts, in order.
pub open spec fn ids_of(s: Seq<Concept>) -> Seq<Seq<char>> {
    s.map_values(|c: Concept| c.id@)
}

/// Some concept of `s` has the identifier `x`.
pub open spec fn has_id(s: Seq<Concept>, x: Seq<char>) -> bool {
    exists|i: int| 0 <= i < s.len() && (#[trigger] s[i]).id@ == x
}

/// No two concepts of `s` share an identifier.
pub open spec fn distinct_ids(s: Seq<Concept>) -> bool {
    forall|i: int, j: int|
        0 <= i < s.len() && 0 <= j < s.len() && i != j ==> (#[trigger] s[i]).id@ != (#[trigger] s[j]).id@
}

/// The position of the concept with identifier `x` in `s`.
pub open spec fn index_of_id(s: Seq<Concept>, x: Seq<char>) -> int {
    choose|i: int| 0 <= i < s.len() && (#[trigger] s[i]).id@ == x
}

/// The concept with identifier `x` in `s`.
pub open spec fn lookup(s: Seq<Concept>, x: Seq<char>) -> Concept {
    s[index_of_id(s, x)]
}

/// What inserting `c` does to the contents: the concept with the same identifier is
/// replaced in place, or `c` is appended.
pub open spec fn inserted(s: Seq<Concept>, c: Concept) -> Seq<Concept> {
    if has_id(s, c.id@) {
        s.update(index_of_id(s, c.id@), c)
    } else {
        s.push(c)
    }
}

/// In a sequence with distinct identifiers, the concept at `i` is the one found under its
/// identifier.
pub proof fn lemma_index_of_id(s: Seq<Concept>, i: int)
    requires
        distinct_ids(s),
        0 <= i < s.len(),
    ensures
        has_id(s, s[i].id@),
        index_of_id(s, s[i].id@) == i,
        lookup(s, s[i].id@) == s[i],
{
    assert(has_id(s, s[i].id@));
    let j = index_of_id(s, s[i].id@);
    assert(s[j].id@ == s[i].id@);
}

/// The concept found under `x` carries the identifier `x`.
pub proof fn lemma_lookup(s: Seq<Concept>, x: Seq<char>)
    requires
        has_id(s, x),
    ensures
        0 <= index_of_id(s, x) < s.len(),
        s[index_of_id(s, x)].id@ == x,
        lookup(s, x).id@ == x,
{
}

/// The concepts of a graph keyed by identifier (a map whose keys keep their first
/// insertion order).
pub struct ConceptMap {
    entries: Vec<Concept>,
}

impl View for ConceptMap {
    type V = Seq<Concept>;

    closed spec fn view(&self) -> Seq<Concept> {
        self.entries@
    }
}

impl ConceptMap {
    #[verifier::type_invariant]
    closed spec fn keys_unique(&self) -> bool {
        distinct_ids(self.entries@)
    }

    /// An empty map.
    pub fn new() -> (m: ConceptMap)
        ensures
            m@ == Seq::<Concept>::empty(),
    {
        ConceptMap { entries: Vec::new() }
    }

    /// The number of concepts.
    pub fn len(&self) -> (n: usize)
        ensures
            n == self@.len(),
            distinct_ids(self@),
    {
        proof {
            use_type_invariant(self);
        }
        self.entries.len()
    }

    /// Whether there are no concepts.
    pub fn is_empty(&self) -> (b: bool)
        ensures
            b == (self@.len() == 0),
    {
        self.entries.len() == 0
    }

    /// The concept at position `i` (in first-insertion order).
    pub fn at(&self, i: usize) -> (c: &Concept)
        requires
            i < self@.len(),
        ensures
            *c == self@[i as int],
            distinct_ids(self@),
    {
        proof {
            use_type_invariant(self);
        }
        &self.entries[i]
    }

    /// The position of the concept with identifier `id`, if there is one.
    pub fn find(&self, id: &ConceptId) -> (r: Option<usize>)
        ensures
            distinct_ids(self@),
            r is None <==> !has_id(self@, id@),
            r matches Some(i) ==> i < self@.len() && self@[i as int].id@ == id@ && index_of_id(self@, id@) == i,
    {
        proof {
            use_type_invariant(self);
        }
        let n = self.entries.len();
        let mut i: usize = 0;
        while i < n
            invariant
                n == self.entries@.len(),
                self@ == self.entries@,
                distinct_ids(self@),
                0 <= i <= n,
                forall|k: int| 0 <= k < i ==> (#[trigger] self.entries@[k]).id@ != id@,
            decreases n - i,
        {
            if self.entries[i].id.same(id) {
                proof {
                    lemma_index_of_id(self@, i as int);
                }
                return Some(i);
            }
            i = i + 1;
        }
        None
    }

    /// Whether some concept has identifier `id`.
    pub fn contains_key(&self, id: &ConceptId) -> (b: bool)
        ensures
            b == has_id(self@, id@),
    {
        self.find(id).is_some()
    }

    /// The concept with identifier `id`, if there is one.
    pub fn get(&self, id: &ConceptId) -> (r: Option<&Concept>)
        ensures
            distinct_ids(self@),
            r is None <==> !has_id(self@, id@),
            r matches Some(c) ==> *c == lookup(self@, id@),
    {
        match self.find(id) {
            Some(i) => Some(self.at(i)),
            None => None,
        }
    }

    /// Inserts `c`, replacing the concept with the same identifier if there is one.
    pub fn insert(&mut self, c: Concept)
        ensures
            final(self)@ == inserted(old(self)@, c),
    {
        proof {
            use_type_invariant(&*self);
        }
        match self.find(&c.id) {
            Some(i) => {
                let ghost s = self.entries@;
                let mut entries = Vec::new();
                std::mem::swap(&mut entries, &mut self.entries);
                entries.set(i, c);
                assert(distinct_ids(entries@)) by {
                    assert forall|a: int, b: int|
                        0 <= a < entries@.len() && 0 <= b < entries@.len() && a != b implies
                        (#[trigger] entries@[a]).id@ != (#[trigger] entries@[b]).id@ by {
                        if a != i && b != i {
                            assert(entries@[a] == s[a] && entries@[b] == s[b]);
                        }
                    }
                }
                self.entries = entries;
            },
            None => {
                let ghost s = self.entries@;
                let mut entries = Vec::new();
                std::mem::swap(&mut entries, &mut self.entries);
                entries.push(c);
                assert(distinct_ids(entries@)) by {
                    assert forall|a: int, b: int|
                        0 <= a < entries@.len() && 0 <= b < entries@.len() && a != b implies
                        (#[trigger] entries@[a]).id@ != (#[trigger] entries@[b]).id@ by {
                        if a < s.len() && b < s.len() {
                            assert(entries@[a] == s[a] && entries@[b] == s[b]);
                        } else if a < s.len() {
                            assert(entries@[a] == s[a]);
                        } else {
                            assert(entries@[b] == s[b]);
                        }
                    }
                }
                self.entries = entries;
            },
        }
    }
}

} // verus!
