# lau_prerequisite

The prerequisite graph of a set of concepts — what must be learned before what —
written in Verus, with its operations proved against their contracts.

Layout of `src/`:

- `concept.rs` — `ConceptId`, `ConceptCategory`, `Concept`.
- `store.rs` — `ConceptMap`, the concepts keyed by identifier (unique keys, kept in
  first-insertion order).
- `graph.rs` — `PrereqGraph` and the queries on direct neighbours: `add_concept`,
  `add_prereq`, `prerequisites_of`, `dependents`, `is_unlocked`, `next_unlockable`.
- `closure.rs` — `all_prerequisites`, the transitive closure by depth-first search.
- `topo.rs` — `topological_sort` (Kahn's algorithm).
- `path.rs` — `learning_path`, a shortest walk by breadth-first search.
- `plan.rs` — `LearningPath::from_graph`.
- `plato.rs` — the built-in concept graph.
- `laws.rs` — properties that relate several operations.
- `lemmas.rs` — general facts about sequences.

`app/` holds serializable copies of the types (serde derives) with conversions to and
from the library's types.
