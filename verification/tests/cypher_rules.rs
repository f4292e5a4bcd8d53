//! Exact outputs of the Cypher generator, its identifiers and its literals.

use onto_extra::{CypherAdapter, JsonValue, Ontology, PersistenceAdapter};
use serde_json::Value;

fn to_library(v: &Value) -> JsonValue {
    match v {
        Value::Null => JsonValue::Null,
        Value::Bool(b) => JsonValue::Bool(*b),
        Value::Number(n) => JsonValue::Number(n.to_string()),
        Value::String(s) => JsonValue::String(s.clone()),
        Value::Array(items) => JsonValue::Array(items.iter().map(to_library).collect()),
        Value::Object(members) => JsonValue::Object(
            members.iter().map(|(k, v)| (k.clone(), to_library(v))).collect(),
        ),
    }
}

fn parse(text: &str) -> JsonValue {
    to_library(&serde_json::from_str::<Value>(text).expect("test JSON is valid"))
}

fn ontology() -> Ontology {
    Ontology::from_jsonld(&parse(
        r#"{
        "@context": { "ex": "https://example.com/ontology/" },
        "@graph": [
            { "@id": "ex:Company", "@type": "owl:Class", "rdfs:label": "Company" },
            { "@id": "ex:Person", "@type": "owl:Class", "rdfs:label": "Person" },
            {
                "@id": "ex:worksFor",
                "@type": "owl:ObjectProperty",
                "rdfs:label": "worksFor",
                "rdfs:domain": { "@id": "ex:Person" },
                "rdfs:range": { "@id": "ex:Company" }
            },
            {
                "@id": "ex:employedBy",
                "@type": "owl:ObjectProperty",
                "rdfs:label": "employedBy",
                "rdfs:domain": { "@id": "ex:Person" },
                "rdfs:range": { "@id": "ex:Company" }
            }
        ]
    }"#,
    ))
    .expect("valid ontology")
}

#[test]
fn sanitize_identifier_examples() {
    assert_eq!(CypherAdapter::sanitize_identifier("Person"), "Person");
    assert_eq!(CypherAdapter::sanitize_identifier("has-skill"), "has_skill");
    assert_eq!(CypherAdapter::sanitize_identifier("Works For"), "Works_For");
    assert_eq!(CypherAdapter::sanitize_identifier("123abc"), "_123abc");
    assert_eq!(CypherAdapter::sanitize_identifier(""), "_");
    assert_eq!(CypherAdapter::sanitize_identifier("é"), "_");
    assert_eq!(CypherAdapter::sanitize_identifier("_x9"), "_x9");
}

#[test]
fn sanitized_identifiers_are_stable() {
    for s in ["Person", "has-skill", "123abc", "", "a b c", "ümlaut"] {
        let once = CypherAdapter::sanitize_identifier(s);
        assert_eq!(CypherAdapter::sanitize_identifier(&once), once);
        assert_eq!(CypherAdapter::cypher_key(&once), once);
    }
}

#[test]
fn cypher_key_examples() {
    assert_eq!(CypherAdapter::cypher_key("name"), "name");
    assert_eq!(CypherAdapter::cypher_key("_id2"), "_id2");
    assert_eq!(CypherAdapter::cypher_key("Company Name"), "`Company Name`");
    assert_eq!(CypherAdapter::cypher_key("1x"), "`1x`");
    assert_eq!(CypherAdapter::cypher_key("a`b"), "`a``b`");
    assert_eq!(CypherAdapter::cypher_key(""), "``");
}

#[test]
fn escape_value_examples() {
    assert_eq!(CypherAdapter::escape_value(&parse(r#""plain""#)), "\"plain\"");
    assert_eq!(
        CypherAdapter::escape_value(&parse(r#""a\\b\"c\nd\re\tf""#)),
        "\"a\\\\b\\\"c\\nd\\re\\tf\""
    );
    assert_eq!(CypherAdapter::escape_value(&parse("42")), "42");
    assert_eq!(CypherAdapter::escape_value(&parse("-1.5")), "-1.5");
    assert_eq!(CypherAdapter::escape_value(&parse("true")), "true");
    assert_eq!(CypherAdapter::escape_value(&parse("false")), "false");
    assert_eq!(CypherAdapter::escape_value(&parse("null")), "null");
    assert_eq!(CypherAdapter::escape_value(&parse(r#"[1, "a", null]"#)), "[1, \"a\", null]");
    assert_eq!(CypherAdapter::escape_value(&parse("[]")), "[]");
    assert_eq!(CypherAdapter::escape_value(&parse("{}")), "{}");
    assert_eq!(
        CypherAdapter::escape_value(&parse(r#"{"a b": 1, "c": [true]}"#)),
        "{`a b`: 1, c: [true]}"
    );
}

#[test]
fn distinct_strings_escape_differently() {
    let a = CypherAdapter::escape_value(&JsonValue::String("a\\nb".to_string()));
    let b = CypherAdapter::escape_value(&JsonValue::String("a\nb".to_string()));
    assert_ne!(a, b);
    assert_eq!(a, "\"a\\\\nb\"");
    assert_eq!(b, "\"a\\nb\"");
}

#[test]
fn canonical_label_examples() {
    let ontology = ontology();
    let adapter = CypherAdapter::new(&ontology);
    assert_eq!(adapter.canonical_label("person"), "Person");
    assert_eq!(adapter.canonical_label("PERSON"), "Person");
    assert_eq!(adapter.canonical_label("Company"), "Company");
    assert_eq!(adapter.canonical_label("Thing"), "Thing");
    let once = adapter.canonical_label("cOmPaNy");
    assert_eq!(adapter.canonical_label(&once), once);
}

#[test]
fn relationship_type_uses_first_edge() {
    let ontology = ontology();
    let adapter = CypherAdapter::new(&ontology);
    assert_eq!(adapter.relationship_type("Person", "Company"), "worksFor");
    assert_eq!(adapter.relationship_type("Company", "Person"), "RELATED_TO");
    assert_eq!(CypherAdapter::default().relationship_type("Person", "Company"), "RELATED_TO");
}

#[test]
fn records_of_each_shape() {
    assert_eq!(CypherAdapter::records(&parse(r#"[{"id": "a"}, 3]"#)).len(), 2);
    assert_eq!(CypherAdapter::records(&parse(r#"{"id": "a"}"#)).len(), 1);
    assert_eq!(CypherAdapter::records(&parse(r#""x""#)).len(), 0);
    assert_eq!(CypherAdapter::records(&parse("null")).len(), 0);
}

#[test]
fn full_statement_text() {
    let ontology = ontology();
    let adapter = CypherAdapter::new(&ontology);
    let payload = parse(
        r#"{
        "person": [{ "id": "p1", "worksFor": { "id": "c\"1", "type": "company" } }],
        "company": { "id": "c\"1" }
    }"#,
    );
    let cypher = adapter.generate_queries(&payload);
    let expected = "UNWIND [{id: \"c\\\"1\"}] AS record\n\
MERGE (n:Company { id: record.id })\n\
ON CREATE SET n += record\n\
ON MATCH SET n += record;\n\
\n\
UNWIND [{id: \"p1\", worksFor: {id: \"c\\\"1\", type: \"company\"}}] AS record\n\
MERGE (n:Person { id: record.id })\n\
ON CREATE SET n += record\n\
ON MATCH SET n += record;\n\
\n\
UNWIND [{childId: \"p1\", parentId: \"c\\\"1\"}] AS edge\n\
MATCH (a:Person { id: edge.childId }),\n\
(b:Company { id: edge.parentId })\n\
MERGE (a)-[:worksFor]->(b);";
    assert_eq!(cypher, expected);
}

#[test]
fn edges_of_one_pair_share_a_block() {
    let ontology = ontology();
    let adapter = CypherAdapter::new(&ontology);
    let payload = parse(
        r#"{
        "Company": [{ "id": "c1" }, { "id": "c2" }],
        "Person": [
            { "id": "p1", "parent_source_ids": ["c1", "c2", "unknown", 7] },
            { "id": "p2", "worksFor": [{ "id": "c2", "type": "Company" }, { "id": "x" }] }
        ]
    }"#,
    );
    let cypher = adapter.generate_queries(&payload);
    assert_eq!(cypher.matches("AS edge").count(), 1, "{cypher}");
    assert!(cypher.contains(
        "UNWIND [{childId: \"p1\", parentId: \"c1\"}, {childId: \"p1\", parentId: \"c2\"}, {childId: \"p2\", parentId: \"c2\"}] AS edge"
    ), "{cypher}");
    assert!(cypher.contains("MERGE (a)-[:worksFor]->(b);"), "{cypher}");
}

#[test]
fn payload_without_any_id_gives_nothing() {
    let ontology = ontology();
    let adapter = CypherAdapter::new(&ontology);
    let payload = parse(
        r#"{
        "Person": [{ "name": "A", "worksFor": { "id": "c1", "type": "Company" } }],
        "Company": { "id": 5 },
        "Skill": "not a record"
    }"#,
    );
    assert_eq!(adapter.generate_queries(&payload), "");
    assert_eq!(adapter.generate_queries(&parse("[]")), "");
    assert_eq!(adapter.generate_queries(&parse("null")), "");
}

#[test]
fn unknown_labels_are_sanitized() {
    let ontology = ontology();
    let adapter = CypherAdapter::new(&ontology);
    let payload = parse(r#"{ "web site": [{ "id": "w1" }] }"#);
    let cypher = adapter.generate_queries(&payload);
    assert!(cypher.contains("MERGE (n:web_site { id: record.id })"), "{cypher}");
}

#[test]
fn statements_are_the_blocks_of_the_text() {
    let ontology = ontology();
    let adapter = CypherAdapter::new(&ontology);
    let payload = parse(
        r#"{
        "Person": [{ "id": "p;1", "worksFor": { "id": "c1", "type": "Company" } }],
        "Company": [{ "id": "c1", "motto": "a;b" }]
    }"#,
    );
    let blocks = adapter.statements(&payload);
    assert_eq!(blocks.len(), 3);
    assert_eq!(blocks.join("\n\n"), adapter.generate_queries(&payload));
    for b in &blocks {
        assert!(b.ends_with(';'));
    }
    // Splitting the whole text at statement ends gives back the blocks.
    let split = onto_extra::neo4j::split_statements(&adapter.generate_queries(&payload));
    let stripped: Vec<String> = blocks.iter().map(|b| b[..b.len() - 1].to_string()).collect();
    assert_eq!(split, stripped);
    // The request for the whole text sends exactly those statements.
    assert_eq!(
        onto_extra::neo4j::request_body(&adapter.generate_queries(&payload)),
        onto_extra::neo4j::statements_body(&blocks)
    );
}

#[test]
fn escaped_literals_hold_no_raw_control_characters() {
    let lit = CypherAdapter::escape_value(&JsonValue::String("a\"\n\r\t\\b;".to_string()));
    assert_eq!(lit, "\"a\\\"\\n\\r\\t\\\\b;\"");
    assert!(!lit.contains('\n') && !lit.contains('\r') && !lit.contains('\t'));
}
