pub mod laws;
pub mod model;
pub mod parse;
pub mod resolver;
pub mod schema;

pub use model::{Edge, Node, Ontology, OntologyError, Property, PropertyRange};
