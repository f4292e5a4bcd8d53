//! Exact outputs of the BAML schema generator and of the id replacement.

use onto_extra::assoc::StrMap;
use onto_extra::{BamlExtractor, JsonValue, Ontology, PropertyRange};
use serde_json::Value;

fn to_library(v: &Value) -> JsonValue {
    match v {
        Value::Null => JsonValue::Null,
        Value::Bool(b) => JsonValue::Bool(*b),
        Value::Number(n) => JsonValue::Number(n.to_string()),
        Value::String(s) => JsonValue::String(s.clone()),
        Value::Array(items) => JsonValue::Array(items.iter().map(to_library).collect()),
        Value::Object(members) => JsonValue::Object(
            members.iter().map(|(k, v)| (k.clone(), to_library(v))).collect(),
        ),
    }
}

fn to_serde(v: &JsonValue) -> Value {
    match v {
        JsonValue::Null => Value::Null,
        JsonValue::Bool(b) => Value::Bool(*b),
        JsonValue::Number(n) => serde_json::from_str(n).unwrap(),
        JsonValue::String(s) => Value::String(s.clone()),
        JsonValue::Array(items) => Value::Array(items.iter().map(to_serde).collect()),
        JsonValue::Object(members) => {
            let mut map = serde_json::Map::new();
            for (k, v) in members {
                map.insert(k.clone(), to_serde(v));
            }
            Value::Object(map)
        }
    }
}

fn parse(text: &str) -> JsonValue {
    to_library(&serde_json::from_str::<Value>(text).expect("test JSON is valid"))
}

fn serde(text: &str) -> Value {
    serde_json::from_str(text).expect("test JSON is valid")
}

fn id_map(pairs: &[(&str, &str)]) -> StrMap {
    let mut m = StrMap::new();
    for (k, v) in pairs {
        m.insert(k.to_string(), v.to_string());
    }
    m
}

#[test]
fn map_scalar_examples() {
    assert_eq!(BamlExtractor::map_scalar("xsd:integer"), "int");
    assert_eq!(BamlExtractor::map_scalar("XSD:Long"), "int");
    assert_eq!(BamlExtractor::map_scalar("Number"), "float");
    assert_eq!(BamlExtractor::map_scalar("xsd:double"), "float");
    assert_eq!(BamlExtractor::map_scalar("xsd:boolean"), "bool");
    assert_eq!(BamlExtractor::map_scalar("String[]"), "string[]");
    assert_eq!(BamlExtractor::map_scalar("integer[]"), "int[]");
    assert_eq!(BamlExtractor::map_scalar("float[]"), "float[]");
    assert_eq!(BamlExtractor::map_scalar("boolean[]"), "bool[]");
    assert_eq!(BamlExtractor::map_scalar("xsd:date"), "string");
    assert_eq!(BamlExtractor::map_scalar(""), "string");
}

#[test]
fn field_name_examples() {
    assert_eq!(BamlExtractor::field_name("Person"), "person");
    assert_eq!(BamlExtractor::field_name("Job-Title"), "job_Title");
    assert_eq!(BamlExtractor::field_name("9Lives"), "_9Lives");
    assert_eq!(BamlExtractor::field_name(""), "");
    assert_eq!(BamlExtractor::field_name("Élan"), "élan");
    assert_eq!(BamlExtractor::field_name("Ünïcode Name"), "ünïcode_Name");
}

#[test]
fn property_types() {
    let o = Ontology::from_jsonld(&parse(
        r#"{ "@graph": [
            { "@id": "http://x/A", "@type": "owl:Class", "rdfs:label": "A" },
            { "@id": "ex:n", "@type": "owl:DatatypeProperty", "rdfs:label": "n",
              "rdfs:domain": { "@id": "http://x/A" }, "rdfs:range": "xsd:float" },
            { "@id": "ex:r", "@type": "owl:ObjectProperty", "rdfs:label": "r",
              "rdfs:domain": { "@id": "http://x/A" }, "rdfs:range": "http://x/A" }
        ] }"#,
    ))
    .unwrap();
    let extractor = BamlExtractor::new(&o);
    let props = &o.nodes[0].properties;
    assert_eq!(props[0].range, PropertyRange::Scalar("xsd:float".to_string()));
    assert_eq!(extractor.map_property_type(&props[0]), "float");
    assert_eq!(extractor.map_property_type(&props[1]), "EntityRef");
}

#[test]
fn whole_schema_text() {
    let o = Ontology::from_jsonld(&parse(
        r#"{ "@graph": [
            { "@id": "http://x/Person", "@type": "owl:Class", "rdfs:label": "Person",
              "rdfs:comment": "A \"person\" #1\nx" },
            { "@id": "http://x/Company", "@type": "owl:Class", "rdfs:label": "Company" },
            { "@id": "ex:name", "@type": "owl:DatatypeProperty", "rdfs:label": "name",
              "rdfs:comment": "Full # name",
              "rdfs:domain": { "@id": "http://x/Person" }, "rdfs:range": "xsd:string" },
            { "@id": "ex:worksFor", "@type": "owl:ObjectProperty", "rdfs:label": "worksFor",
              "rdfs:domain": { "@id": "http://x/Person" }, "rdfs:range": "http://x/Company" }
        ] }"#,
    ))
    .unwrap();
    let schema = BamlExtractor::new(&o).generate_schema();
    let expected = String::new()
        + "class Company {\n"
        + "  id string\n"
        + "  @description(#\"A unique identifier for this Company entity.\"#)\n"
        + "}\n\n"
        + "class Person {\n"
        + "  id string\n"
        + "  @description(#\"A unique identifier for this Person entity. A \\\"person\\\" \\#1\nx\"#)\n"
        + "  name string\n"
        + "  @description(#\"Full \\# name\"#)\n"
        + "  worksFor EntityRef\n"
        + "  // A \"person\" #1 x\n"
        + "}\n\n"
        + "class EntityRef {\n"
        + "  id string\n"
        + "  @description(#\"The id of the referenced entity\"#)\n"
        + "  type string\n"
        + "  @description(#\"The type (class name) of the referenced entity, e.g. Company, Skill\"#)\n"
        + "}\n\n"
        + "dynamic class ExtractionResult {\n"
        + "  company Company[]\n"
        + "  person Person[]\n"
        + "  @description(#\"A \"person\" \\#1\nx\"#)\n"
        + "}\n";
    assert_eq!(schema, expected);
}

#[test]
fn classes_come_in_name_order() {
    let o = Ontology::from_jsonld(&parse(
        r#"{ "@graph": [
            { "@id": "ex:b", "@type": "owl:Class", "rdfs:label": "beta" },
            { "@id": "ex:Z", "@type": "owl:Class", "rdfs:label": "Zeta" },
            { "@id": "ex:a", "@type": "owl:Class", "rdfs:label": "alpha" }
        ] }"#,
    ))
    .unwrap();
    let schema = BamlExtractor::new(&o).generate_schema();
    let z = schema.find("class Zeta {").unwrap();
    let a = schema.find("class alpha {").unwrap();
    let b = schema.find("class beta {").unwrap();
    assert!(z < a && a < b, "{schema}");
}

#[test]
fn remap_ref_ids_rewrites_references_only() {
    let mut value = parse(
        r#"{
        "a": [{ "id": "x", "type": "T" }, { "id": "x" }],
        "b": { "id": "y", "type": "T", "n": { "id": "x", "type": "T" } },
        "c": "x"
    }"#,
    );
    BamlExtractor::remap_ref_ids(&mut value, &id_map(&[("x", "X"), ("y", "Y")]));
    assert_eq!(
        to_serde(&value),
        serde(
            r#"{
            "a": [{ "id": "X", "type": "T" }, { "id": "x" }],
            "b": { "id": "Y", "type": "T", "n": { "id": "x", "type": "T" } },
            "c": "x"
        }"#
        )
    );
}

#[test]
fn apply_id_map_rewrites_entities_and_references() {
    let mut payload = parse(
        r#"{
        "person": [{ "id": "x", "friend": { "id": "y", "type": "P" } }, { "id": "z" }],
        "org": { "id": "y" },
        "n": 3
    }"#,
    );
    BamlExtractor::apply_id_map(&mut payload, &id_map(&[("x", "X"), ("y", "Y")]));
    assert_eq!(
        to_serde(&payload),
        serde(
            r#"{
            "person": [{ "id": "X", "friend": { "id": "Y", "type": "P" } }, { "id": "z" }],
            "org": { "id": "Y" },
            "n": 3
        }"#
        )
    );
}

#[test]
fn assign_uuids_leaves_unknown_references_and_other_payloads() {
    let mut payload = parse(
        r#"{ "person": [{ "id": "p", "ref": { "id": "ghost", "type": "X" } }] }"#,
    );
    BamlExtractor::assign_uuids(&mut payload);
    let v = to_serde(&payload);
    let id = v["person"][0]["id"].as_str().unwrap();
    assert_ne!(id, "p");
    assert_eq!(id.len(), 36);
    assert_eq!(&id[14..15], "4");
    assert_eq!(v["person"][0]["ref"]["id"], "ghost");

    let mut other = parse(r#"["a", { "id": "b" }]"#);
    BamlExtractor::assign_uuids(&mut other);
    assert_eq!(to_serde(&other), serde(r#"["a", { "id": "b" }]"#));
}

#[test]
fn one_entity_one_uuid() {
    let mut payload = parse(
        r#"{
        "a": [{ "id": "same" }],
        "b": { "id": "same", "link": { "id": "same", "type": "A" } }
    }"#,
    );
    BamlExtractor::assign_uuids(&mut payload);
    let v = to_serde(&payload);
    let first = v["a"][0]["id"].as_str().unwrap();
    assert_eq!(v["b"]["id"].as_str(), Some(first));
    assert_eq!(v["b"]["link"]["id"].as_str(), Some(first));
}

#[test]
fn assign_drawn_gives_each_distinct_id_its_own_draw() {
    let mut payload = parse(
        r#"{
        "person": [
            { "id": "person-1", "WorksFor": { "id": "company-1", "type": "Company" } },
            { "id": "person-2", "WorksFor": { "id": "company-1", "type": "Company" } }
        ],
        "company": [{ "id": "company-1" }],
        "again": { "id": "person-1" }
    }"#,
    );
    let ids = onto_extra::extraction::baml::distinct_entity_ids(&payload);
    assert_eq!(ids, vec!["person-1", "company-1", "person-2"]);
    let draws: Vec<String> = vec!["u0".to_string(), "u1".to_string(), "u2".to_string()];
    BamlExtractor::assign_drawn(&mut payload, &draws);
    assert_eq!(
        to_serde(&payload),
        serde(
            r#"{
            "person": [
                { "id": "u0", "WorksFor": { "id": "u1", "type": "Company" } },
                { "id": "u2", "WorksFor": { "id": "u1", "type": "Company" } }
            ],
            "company": [{ "id": "u1" }],
            "again": { "id": "u0" }
        }"#
        )
    );
}

#[test]
fn field_from_lowered_examples() {
    assert_eq!(BamlExtractor::field_from_lowered("person"), "person");
    assert_eq!(BamlExtractor::field_from_lowered("9x y"), "_9x_y");
    assert_eq!(BamlExtractor::field_from_lowered("élan-vital"), "élan_vital");
    assert_eq!(BamlExtractor::field_from_lowered(""), "");
}

#[test]
fn schema_does_not_depend_on_class_order() {
    let a = Ontology::from_jsonld(&parse(
        r#"{ "@graph": [
            { "@id": "ex:b", "@type": "owl:Class", "rdfs:label": "B" },
            { "@id": "ex:a", "@type": "owl:Class", "rdfs:label": "A" }
        ] }"#,
    ))
    .unwrap();
    let b = Ontology::from_jsonld(&parse(
        r#"{ "@graph": [
            { "@id": "ex:a", "@type": "owl:Class", "rdfs:label": "A" },
            { "@id": "ex:b", "@type": "owl:Class", "rdfs:label": "B" }
        ] }"#,
    ))
    .unwrap();
    assert_eq!(BamlExtractor::new(&a).generate_schema(), BamlExtractor::new(&b).generate_schema());
}

#[test]
fn baml_types_agree_with_schema_types() {
    for (xsd, baml) in [("xsd:integer", "int"), ("xsd:short", "int"), ("xsd:decimal", "float"), ("xsd:boolean", "bool")] {
        assert_eq!(BamlExtractor::map_scalar(xsd), baml);
    }
}
