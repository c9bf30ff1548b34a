use lau_prerequisite::{Concept, ConceptCategory, ConceptId, ConceptMap, LearningPath, PrereqGraph};

fn ids(v: &[ConceptId]) -> Vec<&str> {
    v.iter().map(|c| c.as_str()).collect()
}

fn concept_ids(v: &[&Concept]) -> Vec<String> {
    v.iter().map(|c| c.id.to_string()).collect()
}

fn chain() -> PrereqGraph {
    let mut g = PrereqGraph::new();
    for (i, name) in ["a", "b", "c", "d"].iter().enumerate() {
        g.add_concept(Concept::new(name, name, name, "d", (i + 1) as u32, ConceptCategory::Foundation));
    }
    g.add_prereq("a", "b");
    g.add_prereq("b", "c");
    g.add_prereq("c", "d");
    g
}

#[test]
fn concept_id_views() {
    let id = ConceptId::new("vibe");
    assert_eq!(id.as_str(), "vibe");
    assert_eq!(id.to_string(), "vibe".to_string());
    assert!(id.same(&ConceptId::new("vibe")));
    assert!(!id.same(&ConceptId::new("vibes")));
    assert_eq!(id.duplicate(), id);
    assert_ne!(id, ConceptId::new("signal"));
}

#[test]
fn concept_new_keeps_fields_and_clamps() {
    let c = Concept::new("x", "Name", "Kid", "Desc", 3, ConceptCategory::Topology);
    assert_eq!(c.id.as_str(), "x");
    assert_eq!(c.name, "Name");
    assert_eq!(c.kid_name, "Kid");
    assert_eq!(c.description, "Desc");
    assert_eq!(c.difficulty, 3);
    assert_eq!(c.category, ConceptCategory::Topology);
    assert_eq!(Concept::new("x", "", "", "", 1, ConceptCategory::Systems).difficulty, 1);
    assert_eq!(Concept::new("x", "", "", "", 5, ConceptCategory::Systems).difficulty, 5);
    assert_eq!(Concept::new("x", "", "", "", u32::MAX, ConceptCategory::Systems).difficulty, 5);
}

#[test]
fn concept_map_insert_replaces_in_place() {
    let mut m = ConceptMap::new();
    assert!(m.is_empty());
    m.insert(Concept::new("a", "first", "", "", 1, ConceptCategory::Foundation));
    m.insert(Concept::new("b", "B", "", "", 2, ConceptCategory::Foundation));
    m.insert(Concept::new("a", "second", "", "", 4, ConceptCategory::Systems));
    assert_eq!(m.len(), 2);
    assert_eq!(m.at(0).name, "second");
    assert_eq!(m.at(1).id.as_str(), "b");
    assert_eq!(m.get(&ConceptId::new("a")).unwrap().difficulty, 4);
    assert!(m.get(&ConceptId::new("z")).is_none());
    assert_eq!(m.find(&ConceptId::new("b")), Some(1));
    assert_eq!(m.find(&ConceptId::new("z")), None);
    assert!(!m.contains_key(&ConceptId::new("z")));
}

#[test]
fn default_graph_is_empty() {
    let g = PrereqGraph::default();
    assert_eq!(g.concepts.len(), 0);
    assert!(g.edges.is_empty());
    assert!(g.topological_sort().is_empty());
}

#[test]
fn add_prereq_is_idempotent() {
    let mut g = PrereqGraph::new();
    g.add_prereq("x", "y");
    g.add_prereq("x", "y");
    g.add_prereq("y", "x");
    assert_eq!(g.edges.len(), 2);
    assert_eq!(g.edges[0], (ConceptId::new("x"), ConceptId::new("y")));
    assert_eq!(g.edges[1], (ConceptId::new("y"), ConceptId::new("x")));
}

#[test]
fn prerequisites_follow_edge_order_and_skip_unknown_sources() {
    let mut g = chain();
    g.add_prereq("ghost", "d");
    g.add_prereq("a", "d");
    let p = g.prerequisites_of(&ConceptId::new("d"));
    assert_eq!(concept_ids(&p), vec!["c", "a"]);
    assert_eq!(p[0].difficulty, 3);
    // The unknown source does not count as a prerequisite...
    assert!(g.is_unlocked(&ConceptId::new("d"), &[ConceptId::new("c"), ConceptId::new("a")]));
    assert!(!g.is_unlocked(&ConceptId::new("d"), &[ConceptId::new("c")]));
    // ...but it blocks the concept in a topological sort.
    assert_eq!(ids(&g.topological_sort()), vec!["a", "b", "c"]);
}

#[test]
fn dependents_follow_edge_order() {
    let mut g = chain();
    g.add_prereq("a", "d");
    g.add_prereq("a", "nowhere");
    assert_eq!(concept_ids(&g.dependents(&ConceptId::new("a"))), vec!["b", "d"]);
}

#[test]
fn prerequisites_and_dependents_are_dual() {
    let g = PrereqGraph::plato_graph();
    for i in 0..g.concepts.len() {
        let u = &g.concepts.at(i).id;
        for j in 0..g.concepts.len() {
            let v = &g.concepts.at(j).id;
            let u_before_v = g.prerequisites_of(v).iter().any(|c| &c.id == u);
            let v_after_u = g.dependents(u).iter().any(|c| &c.id == v);
            assert_eq!(u_before_v, v_after_u);
        }
    }
}

#[test]
fn next_unlockable_is_unlearned_and_unlocked() {
    let g = PrereqGraph::plato_graph();
    let learned = vec![ConceptId::new("vibe"), ConceptId::new("conservation")];
    let next = g.next_unlockable(&learned);
    assert_eq!(concept_ids(&next), vec!["deadband", "distillation", "jepa", "category_theory"]);
    for i in 0..g.concepts.len() {
        let c = g.concepts.at(i);
        let listed = next.iter().any(|n| n.id == c.id);
        let expected = !learned.contains(&c.id) && g.is_unlocked(&c.id, &learned);
        assert_eq!(listed, expected);
    }
}

#[test]
fn all_prerequisites_with_cycle_includes_start() {
    let mut g = PrereqGraph::new();
    g.add_concept(Concept::new("a", "A", "A", "", 1, ConceptCategory::Foundation));
    g.add_concept(Concept::new("b", "B", "B", "", 1, ConceptCategory::Foundation));
    g.add_prereq("a", "b");
    g.add_prereq("b", "a");
    assert_eq!(concept_ids(&g.all_prerequisites(&ConceptId::new("a"))), vec!["b", "a"]);
    // A cycle leaves both out of the topological sort.
    assert!(g.topological_sort().is_empty());
}

#[test]
fn all_prerequisites_depth_first_order() {
    let g = PrereqGraph::plato_graph();
    let all = g.all_prerequisites(&ConceptId::new("topology"));
    assert_eq!(concept_ids(&all), vec!["fibonacci", "distillation", "conservation", "vibe"]);
    let none = g.all_prerequisites(&ConceptId::new("unknown"));
    assert!(none.is_empty());
}

#[test]
fn topological_sort_respects_every_edge() {
    let g = PrereqGraph::plato_graph();
    let topo = g.topological_sort();
    assert_eq!(topo.len(), 15);
    for (from, to) in &g.edges {
        let pf = topo.iter().position(|x| x == from).unwrap();
        let pt = topo.iter().position(|x| x == to).unwrap();
        assert!(pf < pt);
    }
    assert_eq!(topo[0].as_str(), "vibe");
    assert_eq!(topo[14].as_str(), "grand_pattern");
}

#[test]
fn topological_sort_of_chain_exact() {
    let g = chain();
    assert_eq!(ids(&g.topological_sort()), vec!["a", "b", "c", "d"]);
}

#[test]
fn learning_path_picks_a_shortest_walk() {
    let mut g = PrereqGraph::new();
    g.add_prereq("s", "x");
    g.add_prereq("x", "y");
    g.add_prereq("y", "t");
    g.add_prereq("s", "t2");
    g.add_prereq("t2", "t");
    let p = g.learning_path(&ConceptId::new("s"), &ConceptId::new("t"));
    assert_eq!(ids(&p), vec!["s", "t2", "t"]);
    // Edges need not join concepts of the graph.
    assert_eq!(g.concepts.len(), 0);
    let back = g.learning_path(&ConceptId::new("t"), &ConceptId::new("s"));
    assert!(back.is_empty());
    let same = g.learning_path(&ConceptId::new("nowhere"), &ConceptId::new("nowhere"));
    assert_eq!(ids(&same), vec!["nowhere"]);
}

#[test]
fn learning_path_plato_shortest_length() {
    let g = PrereqGraph::plato_graph();
    let p = g.learning_path(&ConceptId::new("vibe"), &ConceptId::new("grand_pattern"));
    assert_eq!(ids(&p), vec!["vibe", "deadband", "signal", "murmur", "grand_pattern"]);
}

#[test]
fn from_graph_partial_knowledge() {
    let g = PrereqGraph::plato_graph();
    let learned = [ConceptId::new("vibe"), ConceptId::new("deadband")];
    let path = LearningPath::from_graph(&g, &learned, &ConceptId::new("signal")).unwrap();
    assert_eq!(ids(&path.steps), vec!["signal"]);
    assert_eq!(path.total_difficulty, 2);
    assert_eq!(path.estimated_ticks, 20);
}

#[test]
fn from_graph_exact_totals() {
    let g = PrereqGraph::plato_graph();
    let path = LearningPath::from_graph(&g, &[], &ConceptId::new("signal")).unwrap();
    assert_eq!(ids(&path.steps), vec!["vibe", "deadband", "signal"]);
    assert_eq!(path.total_difficulty, 4);
    assert_eq!(path.estimated_ticks, 40);
}

#[test]
fn from_graph_stops_at_learned_concepts() {
    let g = PrereqGraph::plato_graph();
    // Learning conservation cuts the search below it, though vibe is not learned.
    let learned = [ConceptId::new("conservation")];
    let path = LearningPath::from_graph(&g, &learned, &ConceptId::new("category_theory")).unwrap();
    assert_eq!(ids(&path.steps), vec!["category_theory"]);
    assert_eq!(path.total_difficulty, 3);
}

#[test]
fn from_graph_target_is_last_step() {
    let g = PrereqGraph::plato_graph();
    let path = LearningPath::from_graph(&g, &[], &ConceptId::new("functor")).unwrap();
    assert_eq!(ids(&path.steps), vec!["vibe", "conservation", "category_theory", "agent_composition", "functor"]);
    assert_eq!(path.steps.last().unwrap().as_str(), "functor");
    assert_eq!(path.total_difficulty, 1 + 2 + 3 + 4 + 4);
    assert_eq!(path.estimated_ticks, 140);
}

#[test]
fn from_graph_blocked_target_has_no_steps() {
    let mut g = PrereqGraph::new();
    g.add_concept(Concept::new("a", "A", "A", "", 2, ConceptCategory::Foundation));
    g.add_concept(Concept::new("b", "B", "B", "", 3, ConceptCategory::Foundation));
    g.add_prereq("a", "b");
    g.add_prereq("b", "a");
    let path = LearningPath::from_graph(&g, &[], &ConceptId::new("b")).unwrap();
    assert!(path.steps.is_empty());
    assert_eq!(path.total_difficulty, 0);
    assert_eq!(path.estimated_ticks, 0);
}

#[test]
fn plato_graph_exact_contents() {
    let g = PrereqGraph::plato_graph();
    let order: Vec<String> = (0..g.concepts.len()).map(|i| g.concepts.at(i).id.to_string()).collect();
    assert_eq!(
        order,
        vec![
            "vibe", "deadband", "signal", "murmur", "conservation", "distillation", "fibonacci", "topology",
            "jepa", "room_lifecycle", "dissolution", "category_theory", "agent_composition", "functor",
            "grand_pattern"
        ]
    );
    assert_eq!(g.edges.len(), 17);
    let gp = g.concepts.get(&ConceptId::new("grand_pattern")).unwrap();
    assert_eq!(gp.difficulty, 5);
    assert_eq!(gp.category, ConceptCategory::Systems);
    assert_eq!(gp.name, "Grand Pattern");
    assert_eq!(concept_ids(&g.prerequisites_of(&ConceptId::new("grand_pattern"))), vec!["murmur", "topology", "dissolution", "functor"]);
}

#[test]
fn learning_path_steps_unlock_in_order() {
    let g = PrereqGraph::plato_graph();
    let learned = vec![ConceptId::new("conservation")];
    let path = LearningPath::from_graph(&g, &learned, &ConceptId::new("grand_pattern")).unwrap();
    assert_eq!(path.steps.last().unwrap().as_str(), "grand_pattern");
    assert!(!path.steps.iter().any(|s| s.as_str() == "conservation"));
    let mut known = learned.clone();
    for step in &path.steps {
        assert!(g.is_unlocked(step, &known));
        known.push(step.clone());
    }
    assert_eq!(path.steps.len(), 14);
}

#[test]
fn all_prerequisites_come_first_in_topological_order() {
    let g = PrereqGraph::plato_graph();
    let topo = g.topological_sort();
    for (p, c) in topo.iter().enumerate() {
        for pre in g.all_prerequisites(c) {
            let q = topo.iter().position(|x| *x == pre.id).unwrap();
            assert!(q < p);
        }
    }
}

#[test]
fn topological_sorts_hold_the_same_concepts() {
    let mut g1 = PrereqGraph::new();
    let mut g2 = PrereqGraph::new();
    for name in ["p", "q", "r", "s", "loop1", "loop2"] {
        g1.add_concept(Concept::new(name, name, name, "", 1, ConceptCategory::Foundation));
    }
    for name in ["loop2", "s", "r", "loop1", "q", "p"] {
        g2.add_concept(Concept::new(name, name, name, "", 1, ConceptCategory::Foundation));
    }
    let edges = [("p", "q"), ("q", "r"), ("p", "s"), ("loop1", "loop2"), ("loop2", "loop1"), ("loop2", "s")];
    for (a, b) in edges {
        g1.add_prereq(a, b);
    }
    for (a, b) in edges.iter().rev() {
        g2.add_prereq(a, b);
    }
    let mut t1 = ids(&g1.topological_sort()).into_iter().map(String::from).collect::<Vec<_>>();
    let mut t2 = ids(&g2.topological_sort()).into_iter().map(String::from).collect::<Vec<_>>();
    t1.sort();
    t2.sort();
    assert_eq!(t1, vec!["p", "q", "r"]);
    assert_eq!(t1, t2);
}

#[test]
fn learning_more_never_locks() {
    let g = PrereqGraph::plato_graph();
    let target = ConceptId::new("grand_pattern");
    let mut learned = vec![
        ConceptId::new("murmur"),
        ConceptId::new("topology"),
        ConceptId::new("dissolution"),
        ConceptId::new("functor"),
    ];
    assert!(g.is_unlocked(&target, &learned));
    learned.push(ConceptId::new("vibe"));
    assert!(g.is_unlocked(&target, &learned));
    assert!(!g.is_unlocked(&target, &learned[1..]));
}

#[test]
fn learning_path_takes_first_discovered_of_equal_walks() {
    let mut g = PrereqGraph::new();
    g.add_prereq("s", "a");
    g.add_prereq("s", "b");
    g.add_prereq("b", "t");
    g.add_prereq("a", "t");
    let p = g.learning_path(&ConceptId::new("s"), &ConceptId::new("t"));
    assert_eq!(ids(&p), vec!["s", "a", "t"]);
}

#[test]
fn concept_id_from_str() {
    let id = ConceptId::from("vibe");
    assert_eq!(id, ConceptId::new("vibe"));
    assert_eq!(id.as_str(), "vibe");
}

#[test]
fn from_graph_unknown_target_is_none_even_if_learned() {
    let g = PrereqGraph::plato_graph();
    let learned = [ConceptId::new("nonexistent")];
    assert!(LearningPath::from_graph(&g, &learned, &ConceptId::new("nonexistent")).is_none());
}

#[test]
fn learning_path_totals_bounded_by_total_difficulty() {
    let g = PrereqGraph::plato_graph();
    let total: u64 = (0..g.concepts.len()).map(|i| g.concepts.at(i).difficulty as u64).sum();
    assert_eq!(total, 43);
    for i in 0..g.concepts.len() {
        let target = g.concepts.at(i).id.clone();
        let path = LearningPath::from_graph(&g, &[], &target).unwrap();
        assert!((path.total_difficulty as u64) <= total);
        assert_eq!(path.steps.last(), Some(&target));
    }
}
