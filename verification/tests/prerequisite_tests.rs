use lau_prerequisite::{Concept, ConceptCategory, ConceptId, LearningPath, PrereqGraph};

fn test_graph() -> PrereqGraph {
    let mut g = PrereqGraph::new();
    g.add_concept(Concept::new("a", "A", "A", "first", 1, ConceptCategory::Foundation));
    g.add_concept(Concept::new("b", "B", "B", "second", 2, ConceptCategory::Foundation));
    g.add_concept(Concept::new("c", "C", "C", "third", 3, ConceptCategory::Conservation));
    g.add_concept(Concept::new("d", "D", "D", "fourth", 4, ConceptCategory::Systems));
    g.add_prereq("a", "b");
    g.add_prereq("b", "c");
    g.add_prereq("c", "d");
    g
}

#[test]
fn test_add_concept() {
    let g = test_graph();
    assert!(g.concepts.contains_key(&ConceptId::new("a")));
    assert_eq!(g.concepts.len(), 4);
}

#[test]
fn test_add_prereq_no_duplicates() {
    let mut g = test_graph();
    g.add_prereq("a", "b");
    g.add_prereq("a", "b");
    assert_eq!(g.edges.len(), 3);
}

#[test]
fn test_prerequisites_of() {
    let g = test_graph();
    let prereqs = g.prerequisites_of(&ConceptId::new("c"));
    assert_eq!(prereqs.len(), 1);
    assert_eq!(prereqs[0].id, ConceptId::new("b"));
}

#[test]
fn test_prerequisites_of_root() {
    let g = test_graph();
    let prereqs = g.prerequisites_of(&ConceptId::new("a"));
    assert!(prereqs.is_empty());
}

#[test]
fn test_all_prerequisites() {
    let g = test_graph();
    let all = g.all_prerequisites(&ConceptId::new("d"));
    let ids: Vec<&str> = all.iter().map(|c| c.id.as_str()).collect();
    assert!(ids.contains(&"c"));
    assert!(ids.contains(&"b"));
    assert!(ids.contains(&"a"));
    assert_eq!(all.len(), 3);
}

#[test]
fn test_dependents() {
    let g = test_graph();
    let deps = g.dependents(&ConceptId::new("a"));
    assert_eq!(deps.len(), 1);
    assert_eq!(deps[0].id, ConceptId::new("b"));
}

#[test]
fn test_dependents_leaf() {
    let g = test_graph();
    let deps = g.dependents(&ConceptId::new("d"));
    assert!(deps.is_empty());
}

#[test]
fn test_is_unlocked() {
    let g = test_graph();
    assert!(g.is_unlocked(&ConceptId::new("a"), &[]));
    assert!(!g.is_unlocked(&ConceptId::new("b"), &[]));
    assert!(g.is_unlocked(&ConceptId::new("b"), &[ConceptId::new("a")]));
}

#[test]
fn test_next_unlockable_empty() {
    let g = test_graph();
    let next = g.next_unlockable(&[]);
    assert_eq!(next.len(), 1);
    assert_eq!(next[0].id, ConceptId::new("a"));
}

#[test]
fn test_next_unlockable_partial() {
    let g = test_graph();
    let next = g.next_unlockable(&[ConceptId::new("a"), ConceptId::new("b")]);
    assert_eq!(next.len(), 1);
    assert_eq!(next[0].id, ConceptId::new("c"));
}

#[test]
fn test_next_unlockable_all_learned() {
    let g = test_graph();
    let learned = vec![
        ConceptId::new("a"),
        ConceptId::new("b"),
        ConceptId::new("c"),
        ConceptId::new("d"),
    ];
    let next = g.next_unlockable(&learned);
    assert!(next.is_empty());
}

#[test]
fn test_topological_sort() {
    let g = test_graph();
    let topo = g.topological_sort();
    assert_eq!(topo.len(), 4);
    let pos_a = topo.iter().position(|x| x == &ConceptId::new("a")).unwrap();
    let pos_b = topo.iter().position(|x| x == &ConceptId::new("b")).unwrap();
    let pos_c = topo.iter().position(|x| x == &ConceptId::new("c")).unwrap();
    let pos_d = topo.iter().position(|x| x == &ConceptId::new("d")).unwrap();
    assert!(pos_a < pos_b);
    assert!(pos_b < pos_c);
    assert!(pos_c < pos_d);
}

#[test]
fn test_learning_path_direct() {
    let g = test_graph();
    let path = g.learning_path(&ConceptId::new("a"), &ConceptId::new("c"));
    assert_eq!(path.len(), 3);
    assert_eq!(path[0], ConceptId::new("a"));
    assert_eq!(path[2], ConceptId::new("c"));
}

#[test]
fn test_learning_path_same_node() {
    let g = test_graph();
    let path = g.learning_path(&ConceptId::new("a"), &ConceptId::new("a"));
    assert_eq!(path, vec![ConceptId::new("a")]);
}

#[test]
fn test_learning_path_no_path() {
    let g = test_graph();
    // d has no outgoing edges to a
    let path = g.learning_path(&ConceptId::new("d"), &ConceptId::new("a"));
    assert!(path.is_empty());
}

#[test]
fn test_plato_graph_concepts() {
    let g = PrereqGraph::plato_graph();
    assert_eq!(g.concepts.len(), 15);
    assert!(g.concepts.contains_key(&ConceptId::new("vibe")));
    assert!(g.concepts.contains_key(&ConceptId::new("grand_pattern")));
}

#[test]
fn test_plato_graph_edges() {
    let g = PrereqGraph::plato_graph();
    assert!(g.edges.contains(&(ConceptId::new("vibe"), ConceptId::new("deadband"))));
    assert!(g.edges.contains(&(ConceptId::new("murmur"), ConceptId::new("grand_pattern"))));
}

#[test]
fn test_plato_topological_sort() {
    let g = PrereqGraph::plato_graph();
    let topo = g.topological_sort();
    assert_eq!(topo.len(), 15);
    let pos_vibe = topo.iter().position(|x| x.0 == "vibe").unwrap();
    let pos_gp = topo.iter().position(|x| x.0 == "grand_pattern").unwrap();
    assert!(pos_vibe < pos_gp);
}

#[test]
fn test_plato_next_unlockable() {
    let g = PrereqGraph::plato_graph();
    let next = g.next_unlockable(&[]);
    assert_eq!(next.len(), 1);
    assert_eq!(next[0].id, ConceptId::new("vibe"));
}

#[test]
fn test_plato_all_prereqs_of_grand_pattern() {
    let g = PrereqGraph::plato_graph();
    let all = g.all_prerequisites(&ConceptId::new("grand_pattern"));
    assert_eq!(all.len(), 14); // everything else
}

#[test]
fn test_plato_dependents_of_vibe() {
    let g = PrereqGraph::plato_graph();
    let deps = g.dependents(&ConceptId::new("vibe"));
    assert_eq!(deps.len(), 3); // deadband, conservation, jepa
}

#[test]
fn test_learning_path_from_graph() {
    let g = PrereqGraph::plato_graph();
    let path = LearningPath::from_graph(&g, &[], &ConceptId::new("signal")).unwrap();
    assert_eq!(path.steps.len(), 3); // vibe, deadband, signal
    assert!(path.total_difficulty > 0);
    assert!(path.estimated_ticks > 0);
}

#[test]
fn test_learning_path_from_graph_already_learned() {
    let g = PrereqGraph::plato_graph();
    let path = LearningPath::from_graph(
        &g,
        &[ConceptId::new("vibe")],
        &ConceptId::new("vibe"),
    ).unwrap();
    assert!(path.steps.is_empty());
}

#[test]
fn test_learning_path_from_graph_unknown() {
    let g = PrereqGraph::plato_graph();
    assert!(LearningPath::from_graph(&g, &[], &ConceptId::new("nonexistent")).is_none());
}

#[test]
fn test_learning_path_plato_to_grand_pattern() {
    let g = PrereqGraph::plato_graph();
    let path = LearningPath::from_graph(&g, &[], &ConceptId::new("grand_pattern")).unwrap();
    assert_eq!(path.steps.len(), 15); // all concepts needed
    // grand_pattern should be last
    assert_eq!(path.steps.last(), Some(&ConceptId::new("grand_pattern")));
}

#[test]
fn test_difficulty_clamped() {
    let c = Concept::new("x", "X", "X", "desc", 10, ConceptCategory::Foundation);
    assert_eq!(c.difficulty, 5);
    let c2 = Concept::new("y", "Y", "Y", "desc", 0, ConceptCategory::Foundation);
    assert_eq!(c2.difficulty, 1);
}
