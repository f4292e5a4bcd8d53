//! Errors, lookups and prefix resolution of the ontology parser.

use onto_extra::ontology::resolver::PrefixResolver;
use onto_extra::{JsonValue, Ontology, OntologyError, PropertyRange};
use serde_json::Value;

fn to_library(v: &Value) -> JsonValue {
    match v {
        Value::Null => JsonValue::Null,
        Value::Bool(b) => JsonValue::Bool(*b),
        Value::Number(n) => JsonValue::Number(n.to_string()),
        Value::String(s) => JsonValue::String(s.clone()),
        Value::Array(items) => JsonValue::Array(items.iter().map(to_library).collect()),
        Value::Object(members) => JsonValue::Object(
            members.iter().map(|(k, v)| (k.clone(), to_library(v))).collect(),
        ),
    }
}

fn to_serde(v: &JsonValue) -> Value {
    match v {
        JsonValue::Null => Value::Null,
        JsonValue::Bool(b) => Value::Bool(*b),
        JsonValue::Number(n) => serde_json::from_str(n).unwrap(),
        JsonValue::String(s) => Value::String(s.clone()),
        JsonValue::Array(items) => Value::Array(items.iter().map(to_serde).collect()),
        JsonValue::Object(members) => {
            let mut map = serde_json::Map::new();
            for (k, v) in members {
                map.insert(k.clone(), to_serde(v));
            }
            Value::Object(map)
        }
    }
}

fn parse(text: &str) -> JsonValue {
    to_library(&serde_json::from_str::<Value>(text).expect("test JSON is valid"))
}

fn context(text: &str) -> Vec<(String, JsonValue)> {
    match parse(text) {
        JsonValue::Object(members) => members,
        _ => panic!("context must be an object"),
    }
}

#[test]
fn root_must_be_an_object() {
    let err = Ontology::from_jsonld(&parse("[]")).unwrap_err();
    assert_eq!(err, OntologyError::InvalidJsonLd("root must be an object".to_string()));
    assert_eq!(err.message(), "invalid JSON-LD: root must be an object");
}

#[test]
fn graph_must_be_an_array() {
    let err = Ontology::from_jsonld(&parse(r#"{ "@graph": {} }"#)).unwrap_err();
    assert_eq!(err, OntologyError::MissingGraph);
    assert_eq!(err.message(), "no '@graph' array found in ontology");
}

#[test]
fn graph_without_classes_is_empty() {
    let err = Ontology::from_jsonld(&parse(
        r#"{ "@graph": [{ "@id": "ex:p", "@type": "owl:DatatypeProperty", "rdfs:label": "p" }] }"#,
    ))
    .unwrap_err();
    assert_eq!(err, OntologyError::EmptyOntology);
    assert_eq!(err.message(), "ontology contains no nodes");
}

#[test]
fn class_needs_an_id() {
    let err = Ontology::from_jsonld(&parse(
        r#"{ "@graph": [{ "@type": "owl:Class", "rdfs:label": "A" }] }"#,
    ))
    .unwrap_err();
    assert_eq!(err, OntologyError::InvalidJsonLd("class missing '@id'".to_string()));
}

#[test]
fn property_needs_a_label_or_id() {
    let err = Ontology::from_jsonld(&parse(
        r#"{ "@graph": [
            { "@id": "ex:A", "@type": "owl:Class" },
            { "@type": "rdf:Property" }
        ] }"#,
    ))
    .unwrap_err();
    assert_eq!(err, OntologyError::MissingPropertyLabel("<unknown>".to_string()));
    assert_eq!(err.message(), "property '<unknown>' is missing a label");
}

#[test]
fn object_range_needs_an_id() {
    let err = Ontology::from_jsonld(&parse(
        r#"{ "@graph": [
            { "@id": "ex:A", "@type": "owl:Class" },
            { "@id": "ex:p", "@type": "owl:ObjectProperty", "rdfs:label": "p", "rdfs:range": {} }
        ] }"#,
    ))
    .unwrap_err();
    assert_eq!(
        err,
        OntologyError::InvalidJsonLd("property 'p' has object range without '@id'".to_string())
    );
}

#[test]
fn edge_property_range_needs_an_id() {
    let err = Ontology::from_jsonld(&parse(
        r#"{ "@graph": [
            { "@id": "ex:A", "@type": "owl:Class" },
            { "@id": "ex:p", "@type": "owl:ObjectProperty", "rdfs:label": "p",
              "properties": [{ "rdfs:label": "q", "rdfs:range": { "x": 1 } }] }
        ] }"#,
    ))
    .unwrap_err();
    assert_eq!(
        err,
        OntologyError::InvalidJsonLd("edge property 'q' has object range without '@id'".to_string())
    );
}

#[test]
fn unknown_reference_message() {
    let err = Ontology::from_jsonld(&parse(
        r#"{ "@graph": [
            { "@id": "http://x.org/A", "@type": "owl:Class", "rdfs:label": "A" },
            { "@id": "ex:p", "@type": "owl:ObjectProperty", "rdfs:label": "p",
              "rdfs:domain": { "@id": "http://x.org/A" }, "rdfs:range": "http://x.org/B" }
        ] }"#,
    ))
    .unwrap_err();
    assert_eq!(
        err.message(),
        "property 'p' on class 'http://x.org/A' references unknown class 'http://x.org/B'"
    );
}

#[test]
fn labels_fall_back_to_short_names() {
    let o = Ontology::from_jsonld(&parse(
        r#"{
        "@context": { "ex": "https://example.com/", "Thing": "ex:Thing" },
        "@graph": [ { "@id": "ex:Thing", "@type": ["rdfs:Resource", "rdfs:Class"] } ]
    }"#,
    ))
    .unwrap();
    assert_eq!(o.node_names(), vec!["Thing"]);
    assert_eq!(o.nodes[0].id, "https://example.com/Thing");
    assert_eq!(o.nodes[0].description, None);
}

#[test]
fn edge_properties_and_unresolved_domains() {
    let o = Ontology::from_jsonld(&parse(
        r#"{ "@graph": [
            { "@id": "http://x.org/B", "@type": "owl:Class", "rdfs:label": "B" },
            { "@id": "ex:p", "@type": "owl:ObjectProperty", "rdfs:label": "p",
              "rdfs:domain": { "@id": "http://x.org/A" }, "rdfs:range": { "@id": "http://x.org/B" },
              "properties": [
                { "rdfs:label": "since", "rdfs:range": "xsd:date" },
                { "rdfs:label": "other", "rdfs:range": "http://x.org/B" },
                { "rdfs:label": "note" }
              ] }
        ] }"#,
    ))
    .unwrap();
    assert_eq!(o.edges.len(), 1);
    let e = &o.edges[0];
    assert_eq!(e.from, "http:");
    assert_eq!(e.to, "B");
    assert_eq!(e.properties.len(), 2);
    assert_eq!(e.properties[0].name, "since");
    assert_eq!(e.properties[0].range, PropertyRange::Scalar("xsd:date".to_string()));
    assert_eq!(e.properties[1].range, PropertyRange::Scalar("xsd:string".to_string()));
}

#[test]
fn validate_and_lookups() {
    let o = Ontology::from_jsonld(&parse(
        r#"{ "@graph": [ { "@id": "ex:A", "@type": "owl:Class", "rdfs:label": "A" } ] }"#,
    ))
    .unwrap();
    assert!(o.validate().is_ok());
    assert!(o.node("A").is_some());
    assert!(o.node("B").is_none());
    assert!(o.edge_names().is_empty());
    let empty = Ontology::default();
    assert_eq!(empty.validate(), Err(OntologyError::EmptyOntology));
    assert!(empty.node_names().is_empty());
}

#[test]
fn schema_of_an_ontology_always_has_entity_ref() {
    let schema = to_serde(&Ontology::default().to_json());
    assert_eq!(
        schema,
        serde_json::from_str::<Value>(
            r#"{ "$defs": { "EntityRef": {
                "type": "object",
                "properties": { "id": { "type": "string" }, "type": { "type": "string" } },
                "required": ["id", "type"]
            } } }"#
        )
        .unwrap()
    );
}

#[test]
fn nested_properties_must_be_objects() {
    let bad = parse(
        r#"{ "@graph": [ { "@id": "ex:A", "@type": "owl:Class", "properties": [ 3 ] } ] }"#,
    );
    assert!(!Ontology::nested_properties_settable(&bad));
    let good = parse(
        r#"{ "@graph": [ { "@id": "ex:A", "@type": "owl:Class", "properties": [ {}, null ] } ] }"#,
    );
    assert!(Ontology::nested_properties_settable(&good));
}

#[test]
fn resolver_expands_prefixes_and_aliases() {
    let ctx = context(
        r#"{
        "schema": "http://schema.org",
        "ex": "https://example.com/ontology/",
        "company": "schema:Organization",
        "Person": "ex:Person",
        "worksFor": { "@id": "ex:worksFor" }
    }"#,
    );
    let r = PrefixResolver::new(Some(&ctx));
    assert_eq!(r.resolve_base("schema"), Some("http://schema.org/".to_string()));
    assert_eq!(r.resolve_base("ex"), Some("https://example.com/ontology/".to_string()));
    assert_eq!(r.resolve_base("company"), Some("http://schema.org/Organization/".to_string()));
    assert_eq!(r.resolve_base("nope"), None);
    assert_eq!(r.expand("company:Acme"), Some("http://schema.org/Organization/Acme".to_string()));
    assert_eq!(r.expand("https://a.b/c"), Some("https://a.b/c".to_string()));
    assert_eq!(r.expand("plain"), None);
    assert_eq!(r.resolve_iri("nope:x"), "nope:x");
    assert_eq!(r.resolve("ex:Person"), "Person");
    assert_eq!(r.resolve("https://example.com/ontology/worksFor"), "worksFor");
    assert_eq!(r.resolve("ex:Other"), "ex:Other");
}

#[test]
fn resolver_without_context() {
    let r = PrefixResolver::new(None);
    assert_eq!(r.expand("ex:A"), None);
    assert_eq!(r.resolve_iri("http://x/y"), "http://x/y");
    assert_eq!(r.resolve("ex:A"), "ex:A");
}

#[test]
fn cyclic_aliases_do_not_expand() {
    let ctx = context(r#"{ "a": "b:x", "b": "a:y" }"#);
    let r = PrefixResolver::new(Some(&ctx));
    assert_eq!(r.expand("a:z"), None);
    assert_eq!(r.resolve_iri("a:z"), "a:z");
}

#[test]
fn invalid_text_is_invalid_json_ld() {
    let err = Ontology::from_jsonld_text("{ not json").unwrap_err();
    let expected = serde_json::from_str::<Value>("{ not json").unwrap_err().to_string();
    assert_eq!(err, OntologyError::InvalidJsonLd(expected));
}

#[test]
fn text_with_unsettable_nested_property_is_refused() {
    let text = r#"{ "@graph": [ { "@id": "ex:A", "@type": "owl:Class", "properties": [ 3 ] } ] }"#;
    assert!(Ontology::try_from_jsonld_text(text).is_none());
    let good = r#"{ "@graph": [ { "@id": "ex:A", "@type": "owl:Class", "rdfs:label": "A" } ] }"#;
    let o = Ontology::try_from_jsonld_text(good).unwrap().unwrap();
    assert_eq!(o.node_names(), vec!["A"]);
}

#[test]
fn pretty_schema_text() {
    let o = Ontology::from_jsonld_text(
        r#"{ "@graph": [ { "@id": "ex:A", "@type": "owl:Class", "rdfs:label": "A" } ] }"#,
    )
    .unwrap();
    let text = o.to_json_pretty().unwrap();
    assert_eq!(text, serde_json::to_string_pretty(&to_serde(&o.to_json())).unwrap());
    assert!(text.starts_with("{\n  \"$defs\": {"));
    let back: Value = serde_json::from_str(&text).unwrap();
    assert_eq!(back, to_serde(&o.to_json()));
}

#[test]
fn nodes_are_the_class_items_in_order() {
    let o = Ontology::from_jsonld(&parse(
        r#"{ "@context": { "ex": "http://x/" },
             "@graph": [
            { "@id": "ex:Zeta", "@type": "owl:Class", "rdfs:comment": "last letter" },
            { "@id": "ex:p", "@type": "owl:DatatypeProperty", "rdfs:label": "p",
              "rdfs:domain": { "@id": "ex:Zeta" }, "rdfs:range": "xsd:string" },
            { "@id": "ex:Alpha", "@type": ["owl:Thing", "rdfs:Class"], "rdfs:label": "First" }
        ] }"#,
    ))
    .unwrap();
    assert_eq!(o.node_names(), vec!["ex:Zeta", "First"]);
    assert_eq!(o.nodes[0].id, "http://x/Zeta");
    assert_eq!(o.nodes[0].description.as_deref(), Some("last letter"));
    assert_eq!(o.nodes[1].id, "http://x/Alpha");
    assert_eq!(o.nodes[1].description, None);
}

#[test]
fn reference_properties_name_their_edges() {
    let o = Ontology::from_jsonld(&parse(
        r#"{ "@graph": [
            { "@id": "http://x/A", "@type": "owl:Class", "rdfs:label": "A" },
            { "@id": "ex:r", "@type": "owl:ObjectProperty", "rdfs:label": "r",
              "rdfs:domain": { "@id": "http://x/A" }, "rdfs:range": "http://x/A" }
        ] }"#,
    ))
    .unwrap();
    let p = &o.nodes[0].properties[0];
    assert_eq!(p.range, PropertyRange::Reference("r".to_string()));
    assert!(o.edges.iter().any(|e| e.name == p.name));
}
