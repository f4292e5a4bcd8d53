pub mod cypher;
pub mod laws;
pub mod script;

use vstd::prelude::*;

use crate::json::JsonValue;

pub use cypher::CypherAdapter;

verus! {

/// A backend that turns an extraction payload into the statements that
/// store it.
pub trait PersistenceAdapter {
    fn generate_queries(&self, payload: &JsonValue) -> String;
}

} // verus!
