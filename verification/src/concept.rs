//! Concepts, their identifiers and categories, and the keyed store of concepts.
use vstd::prelude::*;
use vstd::std_specs::cmp::PartialEqSpecImpl;
use vstd::std_specs::convert::FromSpecImpl;

verus! {

/// Unique identifier for a concept.
#[derive(Debug, Clone, Hash)]
pub struct ConceptId(pub String);

impl View for ConceptId {
    type V = Seq<char>;

    open spec fn view(&self) -> Seq<char> {
        self.0@
    }
}

impl ConceptId {
    /// Makes an identifier holding the characters of `s`.
    pub fn new(s: &str) -> (id: ConceptId)
        ensures
            id@ == s@,
    {
        ConceptId(s.to_owned())
    }

    /// The identifier as a string slice.
    pub fn as_str(&self) -> (s: &str)
        ensures
            s@ == self@,
    {
        self.0.as_str()
    }

    /// The identifier as an owned string (what `Display` would print).
    pub fn to_string(&self) -> (s: String)
        ensures
            s@ == self@,
    {
        self.0.clone()
    }

    /// A copy of the identifier with the same characters.
    pub fn duplicate(&self) -> (id: ConceptId)
        ensures
            id@ == self@,
    {
        ConceptId(self.0.clone())
    }

    /// Whether two identifiers hold the same characters.
    pub fn same(&self, other: &ConceptId) -> (r: bool)
        ensures
            r == (self@ == other@),
    {
        self.0 == other.0
    }
}

impl PartialEq for ConceptId {
    fn eq(&self, other: &ConceptId) -> (r: bool) {
        self.0 == other.0
    }
}

impl PartialEqSpecImpl for ConceptId {
    open spec fn obeys_eq_spec() -> bool {
        true
    }

    open spec fn eq_spec(&self, other: &ConceptId) -> bool {
        self@ == other@
    }
}

impl Eq for ConceptId {}

impl From<&str> for ConceptId {
    fn from(s: &str) -> (id: ConceptId)
        ensures
            id@ == s@,
    {
        ConceptId::new(s)
    }
}

// `from` states its result in its own `ensures`; a `String` cannot be built from characters
// in spec code, so the trait-level specification is not claimed.
impl FromSpecImpl<&str> for ConceptId {
    open spec fn obeys_from_spec() -> bool {
        false
    }

    open spec fn from_spec(v: &str) -> ConceptId {
        ConceptId(choose|s: String| s@ == v@)
    }
}

/// Category of a concept.
#[derive(Debug, Clone, Copy, PartialEq, Eq, Hash, Structural)]
pub enum ConceptCategory {
    Foundation,
    Conservation,
    Prediction,
    Topology,
    Composition,
    Systems,
}

/// A single concept.
#[derive(Debug, Clone)]
pub struct Concept {
    pub id: ConceptId,
    pub name: String,
    pub kid_name: String,
    pub description: String,
    pub difficulty: u32,
    pub category: ConceptCategory,
}

/// The difficulty that `Concept::new` stores: the given one brought into `1..=5`.
pub open spec fn clamped_difficulty(d: u32) -> u32 {
    if d < 1 {
        1
    } else if d > 5 {
        5
    } else {
        d
    }
}

impl Concept {
    /// Makes a concept; the difficulty is clamped into `1..=5`.
    pub fn new(
        id: &str,
        name: &str,
        kid_name: &str,
        description: &str,
        difficulty: u32,
        category: ConceptCategory,
    ) -> (c: Concept)
        ensures
            c.id@ == id@,
            c.name@ == name@,
            c.kid_name@ == kid_name@,
            c.description@ == description@,
            c.difficulty == clamped_difficulty(difficulty),
            1 <= c.difficulty <= 5,
            difficulty < 1 ==> c.difficulty == 1,
            difficulty > 5 ==> c.difficulty == 5,
            1 <= difficulty <= 5 ==> c.difficulty == difficulty,
            c.category == category,
    {
        let clamped: u32 = if difficulty < 1 {
            1
        } else if difficulty > 5 {
            5
        } else {
            difficulty
        };
        Concept {
            id: ConceptId::new(id),
            name: name.to_owned(),
            kid_name: kid_name.to_owned(),
            description: description.to_owned(),
            difficulty: clamped,
            category,
        }
    }
}

} // verus!
