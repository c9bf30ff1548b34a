//! Prerequisite graph of concepts: what must be learned before what.
pub mod closure;
pub mod concept;
pub mod graph;
pub mod laws;
pub mod lemmas;
pub mod path;
pub mod plan;
pub mod plato;
pub mod store;
pub mod topo;

pub use concept::{Concept, ConceptCategory, ConceptId};
pub use graph::PrereqGraph;
pub use store::ConceptMap;
pub use plan::LearningPath;
