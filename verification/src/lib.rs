//! Ontology-driven extraction of knowledge graphs: a JSON-LD ontology is
//! parsed into classes and relations, turned into a BAML schema for an LLM
//! extractor and into a JSON Schema, and the extracted entities are turned
//! into Cypher statements for Neo4j.

pub mod assoc;
pub mod extraction;
pub mod json;
pub mod json_text;
pub mod neo4j;
pub mod ontology;
pub mod persistence;
pub mod text;

pub use extraction::BamlExtractor;
pub use json::JsonValue;
pub use neo4j::Neo4jError;
pub use ontology::{Edge, Node, Ontology, OntologyError, Property, PropertyRange};
pub use persistence::{CypherAdapter, PersistenceAdapter};
