//! LLM-based structured extraction: the BAML schema that an ontology gives,
//! and the identifiers of the extracted entities.

pub mod baml;
pub mod laws;
pub mod spare;

pub use baml::BamlExtractor;
