//! The built-in graph of PLATO concepts.
use vstd::prelude::*;
use crate::concept::{Concept, ConceptCategory};
use crate::graph::PrereqGraph;
use crate::store::{distinct_ids, has_id, lemma_index_of_id, lookup};

verus! {

/// The fields of a concept: identifier, name, kid-friendly name, description, difficulty
/// and category.
pub open spec fn concept_row(c: Concept) -> (Seq<char>, Seq<char>, Seq<char>, Seq<char>, u32, ConceptCategory) {
    (c.id@, c.name@, c.kid_name@, c.description@, c.difficulty, c.category)
}

/// The fields of each concept of `s`, in order.
pub open spec fn rows_of(s: Seq<Concept>) -> Seq<(Seq<char>, Seq<char>, Seq<char>, Seq<char>, u32, ConceptCategory)> {
    s.map_values(|c: Concept| concept_row(c))
}

/// The concepts of the built-in graph, in insertion order, by their fields.
pub open spec fn plato_concept_rows() -> Seq<(Seq<char>, Seq<char>, Seq<char>, Seq<char>, u32, ConceptCategory)> {
    seq![
        ("vibe"@, "Vibe"@, "Vibe"@, "The fundamental sense of a system's state — the felt quality of its behavior."@, 1u32, ConceptCategory::Foundation),
        ("deadband"@, "Deadband"@, "Deadband"@, "The zone of insensitivity where small changes produce no output — learning to ignore noise."@, 1u32, ConceptCategory::Foundation),
        ("signal"@, "Signal"@, "Signal"@, "Distinguishing meaningful change from noise; what rises above the deadband."@, 2u32, ConceptCategory::Foundation),
        ("murmur"@, "Murmur"@, "Murmur"@, "The faint but persistent pattern beneath noise — coherent whispers of structure."@, 2u32, ConceptCategory::Foundation),
        ("conservation"@, "Conservation"@, "Conservation"@, "What is preserved across transformations — the invariants that define identity."@, 2u32, ConceptCategory::Conservation),
        ("distillation"@, "Distillation"@, "Distillation"@, "Extracting the essential structure from a richer representation while conserving meaning."@, 3u32, ConceptCategory::Conservation),
        ("fibonacci"@, "Fibonacci"@, "Fibonacci"@, "Self-similar growth patterns that conserve ratio across scales — nature's recursion."@, 3u32, ConceptCategory::Conservation),
        ("topology"@, "Topology"@, "Topology"@, "The shape that persists through continuous deformation — the ultimate conservation law."@, 4u32, ConceptCategory::Topology),
        ("jepa"@, "JEPA"@, "JEPA"@, "Joint-Embedding Predictive Architecture — predicting representations, not pixels."@, 2u32, ConceptCategory::Prediction),
        ("room_lifecycle"@, "Room Lifecycle"@, "Room Lifecycle"@, "How spaces evolve through use — predicting the arc of habitation."@, 3u32, ConceptCategory::Prediction),
        ("dissolution"@, "Dissolution"@, "Dissolution"@, "The predicted endpoint when structure yields to entropy — graceful decay of form."@, 4u32, ConceptCategory::Prediction),
        ("category_theory"@, "Category Theory"@, "Category Theory"@, "The mathematics of composability — objects, morphisms, and universal patterns."@, 3u32, ConceptCategory::Composition),
        ("agent_composition"@, "Agent Composition"@, "Agent Composition"@, "Composing intelligent agents from simpler primitives via categorical constructs."@, 4u32, ConceptCategory::Composition),
        ("functor"@, "Functor"@, "Functor"@, "Structure-preserving maps between categories — the bridge between worlds."@, 4u32, ConceptCategory::Composition),
        ("grand_pattern"@, "Grand Pattern"@, "Grand Pattern"@, "The unified architecture underlying all PLATO concepts — the system of systems."@, 5u32, ConceptCategory::Systems),
    ]
}

/// The edges of the built-in graph, in insertion order: prerequisite, then dependent.
pub open spec fn plato_edge_rows() -> Seq<(Seq<char>, Seq<char>)> {
    seq![
        ("vibe"@, "deadband"@),
        ("deadband"@, "signal"@),
        ("signal"@, "murmur"@),
        ("vibe"@, "conservation"@),
        ("conservation"@, "distillation"@),
        ("distillation"@, "fibonacci"@),
        ("fibonacci"@, "topology"@),
        ("vibe"@, "jepa"@),
        ("jepa"@, "room_lifecycle"@),
        ("room_lifecycle"@, "dissolution"@),
        ("conservation"@, "category_theory"@),
        ("category_theory"@, "agent_composition"@),
        ("agent_composition"@, "functor"@),
        ("murmur"@, "grand_pattern"@),
        ("topology"@, "grand_pattern"@),
        ("dissolution"@, "grand_pattern"@),
        ("functor"@, "grand_pattern"@),
    ]
}

/// The concepts of the built-in graph, each with its name, difficulty and category.
pub proof fn law_plato_concepts(nodes: Seq<Concept>)
    requires
        rows_of(nodes) == plato_concept_rows(),
        distinct_ids(nodes),
    ensures
        nodes.len() == 15,
        has_id(nodes, "vibe"@),
        lookup(nodes, "vibe"@).name@ == "Vibe"@,
        lookup(nodes, "vibe"@).difficulty == 1,
        lookup(nodes, "vibe"@).category == ConceptCategory::Foundation,
        has_id(nodes, "deadband"@),
        lookup(nodes, "deadband"@).name@ == "Deadband"@,
        lookup(nodes, "deadband"@).difficulty == 1,
        lookup(nodes, "deadband"@).category == ConceptCategory::Foundation,
        has_id(nodes, "signal"@),
        lookup(nodes, "signal"@).name@ == "Signal"@,
        lookup(nodes, "signal"@).difficulty == 2,
        lookup(nodes, "signal"@).category == ConceptCategory::Foundation,
        has_id(nodes, "murmur"@),
        lookup(nodes, "murmur"@).name@ == "Murmur"@,
        lookup(nodes, "murmur"@).difficulty == 2,
        lookup(nodes, "murmur"@).category == ConceptCategory::Foundation,
        has_id(nodes, "conservation"@),
        lookup(nodes, "conservation"@).name@ == "Conservation"@,
        lookup(nodes, "conservation"@).difficulty == 2,
        lookup(nodes, "conservation"@).category == ConceptCategory::Conservation,
        has_id(nodes, "distillation"@),
        lookup(nodes, "distillation"@).name@ == "Distillation"@,
        lookup(nodes, "distillation"@).difficulty == 3,
        lookup(nodes, "distillation"@).category == ConceptCategory::Conservation,
        has_id(nodes, "fibonacci"@),
        lookup(nodes, "fibonacci"@).name@ == "Fibonacci"@,
        lookup(nodes, "fibonacci"@).difficulty == 3,
        lookup(nodes, "fibonacci"@).category == ConceptCategory::Conservation,
        has_id(nodes, "topology"@),
        lookup(nodes, "topology"@).name@ == "Topology"@,
        lookup(nodes, "topology"@).difficulty == 4,
        lookup(nodes, "topology"@).category == ConceptCategory::Topology,
        has_id(nodes, "jepa"@),
        lookup(nodes, "jepa"@).name@ == "JEPA"@,
        lookup(nodes, "jepa"@).difficulty == 2,
        lookup(nodes, "jepa"@).category == ConceptCategory::Prediction,
        has_id(nodes, "room_lifecycle"@),
        lookup(nodes, "room_lifecycle"@).name@ == "Room Lifecycle"@,
        lookup(nodes, "room_lifecycle"@).difficulty == 3,
        lookup(nodes, "room_lifecycle"@).category == ConceptCategory::Prediction,
        has_id(nodes, "dissolution"@),
        lookup(nodes, "dissolution"@).name@ == "Dissolution"@,
        lookup(nodes, "dissolution"@).difficulty == 4,
        lookup(nodes, "dissolution"@).category == ConceptCategory::Prediction,
        has_id(nodes, "category_theory"@),
        lookup(nodes, "category_theory"@).name@ == "Category Theory"@,
        lookup(nodes, "category_theory"@).difficulty == 3,
        lookup(nodes, "category_theory"@).category == ConceptCategory::Composition,
        has_id(nodes, "agent_composition"@),
        lookup(nodes, "agent_composition"@).name@ == "Agent Composition"@,
        lookup(nodes, "agent_composition"@).difficulty == 4,
        lookup(nodes, "agent_composition"@).category == ConceptCategory::Composition,
        has_id(nodes, "functor"@),
        lookup(nodes, "functor"@).name@ == "Functor"@,
        lookup(nodes, "functor"@).difficulty == 4,
        lookup(nodes, "functor"@).category == ConceptCategory::Composition,
        has_id(nodes, "grand_pattern"@),
        lookup(nodes, "grand_pattern"@).name@ == "Grand Pattern"@,
        lookup(nodes, "grand_pattern"@).difficulty == 5,
        lookup(nodes, "grand_pattern"@).category == ConceptCategory::Systems,
{
    assert(rows_of(nodes).len() == nodes.len());
    lemma_index_of_id(nodes, 0);
    assert(rows_of(nodes)[0] == plato_concept_rows()[0]);
    lemma_index_of_id(nodes, 1);
    assert(rows_of(nodes)[1] == plato_concept_rows()[1]);
    lemma_index_of_id(nodes, 2);
    assert(rows_of(nodes)[2] == plato_concept_rows()[2]);
    lemma_index_of_id(nodes, 3);
    assert(rows_of(nodes)[3] == plato_concept_rows()[3]);
    lemma_index_of_id(nodes, 4);
    assert(rows_of(nodes)[4] == plato_concept_rows()[4]);
    lemma_index_of_id(nodes, 5);
    assert(rows_of(nodes)[5] == plato_concept_rows()[5]);
    lemma_index_of_id(nodes, 6);
    assert(rows_of(nodes)[6] == plato_concept_rows()[6]);
    lemma_index_of_id(nodes, 7);
    assert(rows_of(nodes)[7] == plato_concept_rows()[7]);
    lemma_index_of_id(nodes, 8);
    assert(rows_of(nodes)[8] == plato_concept_rows()[8]);
    lemma_index_of_id(nodes, 9);
    assert(rows_of(nodes)[9] == plato_concept_rows()[9]);
    lemma_index_of_id(nodes, 10);
    assert(rows_of(nodes)[10] == plato_concept_rows()[10]);
    lemma_index_of_id(nodes, 11);
    assert(rows_of(nodes)[11] == plato_concept_rows()[11]);
    lemma_index_of_id(nodes, 12);
    assert(rows_of(nodes)[12] == plato_concept_rows()[12]);
    lemma_index_of_id(nodes, 13);
    assert(rows_of(nodes)[13] == plato_concept_rows()[13]);
    lemma_index_of_id(nodes, 14);
    assert(rows_of(nodes)[14] == plato_concept_rows()[14]);
}

/// The edges of the built-in graph, in insertion order, each from a prerequisite to its
/// dependent.
pub proof fn law_plato_edges(es: Seq<(Seq<char>, Seq<char>)>)
    requires
        es == plato_edge_rows(),
    ensures
        es.len() == 17,
        es[0] == ("vibe"@, "deadband"@),
        es[1] == ("deadband"@, "signal"@),
        es[2] == ("signal"@, "murmur"@),
        es[3] == ("vibe"@, "conservation"@),
        es[4] == ("conservation"@, "distillation"@),
        es[5] == ("distillation"@, "fibonacci"@),
        es[6] == ("fibonacci"@, "topology"@),
        es[7] == ("vibe"@, "jepa"@),
        es[8] == ("jepa"@, "room_lifecycle"@),
        es[9] == ("room_lifecycle"@, "dissolution"@),
        es[10] == ("conservation"@, "category_theory"@),
        es[11] == ("category_theory"@, "agent_composition"@),
        es[12] == ("agent_composition"@, "functor"@),
        es[13] == ("murmur"@, "grand_pattern"@),
        es[14] == ("topology"@, "grand_pattern"@),
        es[15] == ("dissolution"@, "grand_pattern"@),
        es[16] == ("functor"@, "grand_pattern"@),
{
}

impl PrereqGraph {
    /// Adds a concept whose identifier is not yet present: it is appended.
    fn add_new_concept(&mut self, c: Concept)
        requires
            !has_id(old(self).nodes(), c.id@),
        ensures
            final(self).nodes() == old(self).nodes().push(c),
            rows_of(final(self).nodes()) == rows_of(old(self).nodes()).push(concept_row(c)),
            forall|x: Seq<char>| #[trigger] has_id(final(self).nodes(), x) <==> has_id(old(self).nodes(), x) || x == c.id@,
            final(self).links() == old(self).links(),
    {
        let ghost s = self.nodes();
        self.add_concept(c);
        proof {
            let t = s.push(c);
            assert(rows_of(t) =~= rows_of(s).push(concept_row(c)));
            assert forall|x: Seq<char>| #[trigger] has_id(t, x) <==> has_id(s, x) || x == c.id@ by {
                if has_id(t, x) {
                    let i = choose|i: int| 0 <= i < t.len() && (#[trigger] t[i]).id@ == x;
                    if i < s.len() {
                        assert(s[i] == t[i]);
                    }
                }
                if has_id(s, x) {
                    let i = choose|i: int| 0 <= i < s.len() && (#[trigger] s[i]).id@ == x;
                    assert(t[i] == s[i]);
                }
                if x == c.id@ {
                    assert(t[s.len() as int] == c);
                }
            }
        }
    }

    /// Adds an edge that is not yet present: it is appended.
    fn add_new_prereq(&mut self, from: &str, to: &str)
        requires
            !old(self).links().contains((from@, to@)),
        ensures
            final(self).nodes() == old(self).nodes(),
            final(self).links() == old(self).links().push((from@, to@)),
            forall|e: (Seq<char>, Seq<char>)| #[trigger] final(self).links().contains(e)
                <==> old(self).links().contains(e) || e == (from@, to@),
    {
        let ghost s = self.links();
        self.add_prereq(from, to);
        proof {
            let t = s.push((from@, to@));
            assert forall|e: (Seq<char>, Seq<char>)| #[trigger] t.contains(e) <==> s.contains(e) || e == (from@, to@) by {
                if t.contains(e) {
                    let i = choose|i: int| 0 <= i < t.len() && t[i] == e;
                    if i < s.len() {
                        assert(s[i] == t[i]);
                    }
                }
                if s.contains(e) {
                    let i = choose|i: int| 0 <= i < s.len() && s[i] == e;
                    assert(t[i] == s[i]);
                }
                if e == (from@, to@) {
                    assert(t[s.len() as int] == e);
                }
            }
        }
    }

    /// Build the pre-built PLATO concept graph.
    pub fn plato_graph() -> (g: PrereqGraph)
        ensures
            rows_of(g.nodes()) == plato_concept_rows(),
            g.links() == plato_edge_rows(),
            g.nodes().len() == 15,
            g.links().len() == 17,
            g.links()[0] == ("vibe"@, "deadband"@),
            g.links()[1] == ("deadband"@, "signal"@),
            g.links()[2] == ("signal"@, "murmur"@),
            g.links()[3] == ("vibe"@, "conservation"@),
            g.links()[4] == ("conservation"@, "distillation"@),
            g.links()[5] == ("distillation"@, "fibonacci"@),
            g.links()[6] == ("fibonacci"@, "topology"@),
            g.links()[7] == ("vibe"@, "jepa"@),
            g.links()[8] == ("jepa"@, "room_lifecycle"@),
            g.links()[9] == ("room_lifecycle"@, "dissolution"@),
            g.links()[10] == ("conservation"@, "category_theory"@),
            g.links()[11] == ("category_theory"@, "agent_composition"@),
            g.links()[12] == ("agent_composition"@, "functor"@),
            g.links()[13] == ("murmur"@, "grand_pattern"@),
            g.links()[14] == ("topology"@, "grand_pattern"@),
            g.links()[15] == ("dissolution"@, "grand_pattern"@),
            g.links()[16] == ("functor"@, "grand_pattern"@),
            has_id(g.nodes(), "vibe"@),
            lookup(g.nodes(), "vibe"@).name@ == "Vibe"@,
            lookup(g.nodes(), "vibe"@).difficulty == 1,
            lookup(g.nodes(), "vibe"@).category == ConceptCategory::Foundation,
            has_id(g.nodes(), "deadband"@),
            lookup(g.nodes(), "deadband"@).name@ == "Deadband"@,
            lookup(g.nodes(), "deadband"@).difficulty == 1,
            lookup(g.nodes(), "deadband"@).category == ConceptCategory::Foundation,
            has_id(g.nodes(), "signal"@),
            lookup(g.nodes(), "signal"@).name@ == "Signal"@,
            lookup(g.nodes(), "signal"@).difficulty == 2,
            lookup(g.nodes(), "signal"@).category == ConceptCategory::Foundation,
            has_id(g.nodes(), "murmur"@),
            lookup(g.nodes(), "murmur"@).name@ == "Murmur"@,
            lookup(g.nodes(), "murmur"@).difficulty == 2,
            lookup(g.nodes(), "murmur"@).category == ConceptCategory::Foundation,
            has_id(g.nodes(), "conservation"@),
            lookup(g.nodes(), "conservation"@).name@ == "Conservation"@,
            lookup(g.nodes(), "conservation"@).difficulty == 2,
            lookup(g.nodes(), "conservation"@).category == ConceptCategory::Conservation,
            has_id(g.nodes(), "distillation"@),
            lookup(g.nodes(), "distillation"@).name@ == "Distillation"@,
            lookup(g.nodes(), "distillation"@).difficulty == 3,
            lookup(g.nodes(), "distillation"@).category == ConceptCategory::Conservation,
            has_id(g.nodes(), "fibonacci"@),
            lookup(g.nodes(), "fibonacci"@).name@ == "Fibonacci"@,
            lookup(g.nodes(), "fibonacci"@).difficulty == 3,
            lookup(g.nodes(), "fibonacci"@).category == ConceptCategory::Conservation,
            has_id(g.nodes(), "topology"@),
            lookup(g.nodes(), "topology"@).name@ == "Topology"@,
            lookup(g.nodes(), "topology"@).difficulty == 4,
            lookup(g.nodes(), "topology"@).category == ConceptCategory::Topology,
            has_id(g.nodes(), "jepa"@),
            lookup(g.nodes(), "jepa"@).name@ == "JEPA"@,
            lookup(g.nodes(), "jepa"@).difficulty == 2,
            lookup(g.nodes(), "jepa"@).category == ConceptCategory::Prediction,
            has_id(g.nodes(), "room_lifecycle"@),
            lookup(g.nodes(), "room_lifecycle"@).name@ == "Room Lifecycle"@,
            lookup(g.nodes(), "room_lifecycle"@).difficulty == 3,
            lookup(g.nodes(), "room_lifecycle"@).category == ConceptCategory::Prediction,
            has_id(g.nodes(), "dissolution"@),
            lookup(g.nodes(), "dissolution"@).name@ == "Dissolution"@,
            lookup(g.nodes(), "dissolution"@).difficulty == 4,
            lookup(g.nodes(), "dissolution"@).category == ConceptCategory::Prediction,
            has_id(g.nodes(), "category_theory"@),
            lookup(g.nodes(), "category_theory"@).name@ == "Category Theory"@,
            lookup(g.nodes(), "category_theory"@).difficulty == 3,
            lookup(g.nodes(), "category_theory"@).category == ConceptCategory::Composition,
            has_id(g.nodes(), "agent_composition"@),
            lookup(g.nodes(), "agent_composition"@).name@ == "Agent Composition"@,
            lookup(g.nodes(), "agent_composition"@).difficulty == 4,
            lookup(g.nodes(), "agent_composition"@).category == ConceptCategory::Composition,
            has_id(g.nodes(), "functor"@),
            lookup(g.nodes(), "functor"@).name@ == "Functor"@,
            lookup(g.nodes(), "functor"@).difficulty == 4,
            lookup(g.nodes(), "functor"@).category == ConceptCategory::Composition,
            has_id(g.nodes(), "grand_pattern"@),
            lookup(g.nodes(), "grand_pattern"@).name@ == "Grand Pattern"@,
            lookup(g.nodes(), "grand_pattern"@).difficulty == 5,
            lookup(g.nodes(), "grand_pattern"@).category == ConceptCategory::Systems,
    {
        // The identifiers are distinct: their lengths, or their first characters, differ.
        proof {
            reveal_strlit("vibe");
            reveal_strlit("deadband");
            reveal_strlit("signal");
            reveal_strlit("murmur");
            reveal_strlit("conservation");
            reveal_strlit("distillation");
            reveal_strlit("fibonacci");
            reveal_strlit("topology");
            reveal_strlit("jepa");
            reveal_strlit("room_lifecycle");
            reveal_strlit("dissolution");
            reveal_strlit("category_theory");
            reveal_strlit("agent_composition");
            reveal_strlit("functor");
            reveal_strlit("grand_pattern");
            assert("vibe"@.len() == 4);
            assert("deadband"@.len() == 8);
            assert("signal"@.len() == 6);
            assert("murmur"@.len() == 6);
            assert("conservation"@.len() == 12);
            assert("distillation"@.len() == 12);
            assert("fibonacci"@.len() == 9);
            assert("topology"@.len() == 8);
            assert("jepa"@.len() == 4);
            assert("room_lifecycle"@.len() == 14);
            assert("dissolution"@.len() == 11);
            assert("category_theory"@.len() == 15);
            assert("agent_composition"@.len() == 17);
            assert("functor"@.len() == 7);
            assert("grand_pattern"@.len() == 13);
            assert("vibe"@[0] != "jepa"@[0]);
            assert("deadband"@[0] != "topology"@[0]);
            assert("signal"@[0] != "murmur"@[0]);
            assert("conservation"@[0] != "distillation"@[0]);
        }
        let mut g = PrereqGraph::new();
        assert(rows_of(g.nodes()) =~= Seq::empty());

        g.add_new_concept(Concept::new(
            "vibe", "Vibe", "Vibe",
            "The fundamental sense of a system's state — the felt quality of its behavior.",
            1, ConceptCategory::Foundation,
        ));
        g.add_new_concept(Concept::new(
            "deadband", "Deadband", "Deadband",
            "The zone of insensitivity where small changes produce no output — learning to ignore noise.",
            1, ConceptCategory::Foundation,
        ));
        g.add_new_concept(Concept::new(
            "signal", "Signal", "Signal",
            "Distinguishing meaningful change from noise; what rises above the deadband.",
            2, ConceptCategory::Foundation,
        ));
        g.add_new_concept(Concept::new(
            "murmur", "Murmur", "Murmur",
            "The faint but persistent pattern beneath noise — coherent whispers of structure.",
            2, ConceptCategory::Foundation,
        ));
        g.add_new_concept(Concept::new(
            "conservation", "Conservation", "Conservation",
            "What is preserved across transformations — the invariants that define identity.",
            2, ConceptCategory::Conservation,
        ));
        g.add_new_concept(Concept::new(
            "distillation", "Distillation", "Distillation",
            "Extracting the essential structure from a richer representation while conserving meaning.",
            3, ConceptCategory::Conservation,
        ));
        g.add_new_concept(Concept::new(
            "fibonacci", "Fibonacci", "Fibonacci",
            "Self-similar growth patterns that conserve ratio across scales — nature's recursion.",
            3, ConceptCategory::Conservation,
        ));
        g.add_new_concept(Concept::new(
            "topology", "Topology", "Topology",
            "The shape that persists through continuous deformation — the ultimate conservation law.",
            4, ConceptCategory::Topology,
        ));
        g.add_new_concept(Concept::new(
            "jepa", "JEPA", "JEPA",
            "Joint-Embedding Predictive Architecture — predicting representations, not pixels.",
            2, ConceptCategory::Prediction,
        ));
        g.add_new_concept(Concept::new(
            "room_lifecycle", "Room Lifecycle", "Room Lifecycle",
            "How spaces evolve through use — predicting the arc of habitation.",
            3, ConceptCategory::Prediction,
        ));
        g.add_new_concept(Concept::new(
            "dissolution", "Dissolution", "Dissolution",
            "The predicted endpoint when structure yields to entropy — graceful decay of form.",
            4, ConceptCategory::Prediction,
        ));
        g.add_new_concept(Concept::new(
            "category_theory", "Category Theory", "Category Theory",
            "The mathematics of composability — objects, morphisms, and universal patterns.",
            3, ConceptCategory::Composition,
        ));
        g.add_new_concept(Concept::new(
            "agent_composition", "Agent Composition", "Agent Composition",
            "Composing intelligent agents from simpler primitives via categorical constructs.",
            4, ConceptCategory::Composition,
        ));
        g.add_new_concept(Concept::new(
            "functor", "Functor", "Functor",
            "Structure-preserving maps between categories — the bridge between worlds.",
            4, ConceptCategory::Composition,
        ));
        g.add_new_concept(Concept::new(
            "grand_pattern", "Grand Pattern", "Grand Pattern",
            "The unified architecture underlying all PLATO concepts — the system of systems.",
            5, ConceptCategory::Systems,
        ));

        g.add_new_prereq("vibe", "deadband");
        g.add_new_prereq("deadband", "signal");
        g.add_new_prereq("signal", "murmur");
        g.add_new_prereq("vibe", "conservation");
        g.add_new_prereq("conservation", "distillation");
        g.add_new_prereq("distillation", "fibonacci");
        g.add_new_prereq("fibonacci", "topology");
        g.add_new_prereq("vibe", "jepa");
        g.add_new_prereq("jepa", "room_lifecycle");
        g.add_new_prereq("room_lifecycle", "dissolution");
        g.add_new_prereq("conservation", "category_theory");
        g.add_new_prereq("category_theory", "agent_composition");
        g.add_new_prereq("agent_composition", "functor");
        g.add_new_prereq("murmur", "grand_pattern");
        g.add_new_prereq("topology", "grand_pattern");
        g.add_new_prereq("dissolution", "grand_pattern");
        g.add_new_prereq("functor", "grand_pattern");

        assert(rows_of(g.nodes()) =~= plato_concept_rows());
        assert(g.links() =~= plato_edge_rows());
        // Reading the length brings in the invariant that the identifiers are unique.
        let count = g.concepts.len();
        proof {
            law_plato_concepts(g.nodes());
            law_plato_edges(g.links());
        }
        assert(count == 15);
        g
    }
}

} // verus!
