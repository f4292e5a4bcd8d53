//! The request bodies, response checks and graph rows of the Neo4j protocol.

use onto_extra::neo4j::{
    check_response, commit_url, empty_result, graph_rows, is_blank, request_body, split_statements,
    str_trim, FETCH_ALL_QUERY,
};
use onto_extra::{JsonValue, Neo4jError};
use serde_json::Value;

fn to_library(v: &Value) -> JsonValue {
    match v {
        Value::Null => JsonValue::Null,
        Value::Bool(b) => JsonValue::Bool(*b),
        Value::Number(n) => JsonValue::Number(n.to_string()),
        Value::String(s) => JsonValue::String(s.clone()),
        Value::Array(items) => JsonValue::Array(items.iter().map(to_library).collect()),
        Value::Object(members) => JsonValue::Object(
            members.iter().map(|(k, v)| (k.clone(), to_library(v))).collect(),
        ),
    }
}

fn to_serde(v: &JsonValue) -> Value {
    match v {
        JsonValue::Null => Value::Null,
        JsonValue::Bool(b) => Value::Bool(*b),
        JsonValue::Number(n) => serde_json::from_str(n).unwrap(),
        JsonValue::String(s) => Value::String(s.clone()),
        JsonValue::Array(items) => Value::Array(items.iter().map(to_serde).collect()),
        JsonValue::Object(members) => {
            let mut map = serde_json::Map::new();
            for (k, v) in members {
                map.insert(k.clone(), to_serde(v));
            }
            Value::Object(map)
        }
    }
}

fn serde(text: &str) -> Value {
    serde_json::from_str(text).expect("test JSON is valid")
}

#[test]
fn endpoint_url() {
    assert_eq!(commit_url("http://localhost:7474"), "http://localhost:7474/db/neo4j/tx/commit");
    assert_eq!(FETCH_ALL_QUERY, "MATCH (n) OPTIONAL MATCH (n)-[r]->(m) RETURN n, r, m");
}

#[test]
fn trimming() {
    assert_eq!(str_trim("  a b \n"), "a b");
    assert_eq!(str_trim("\u{3000}x\u{3000}"), "x");
    assert_eq!(str_trim("\t\r\n "), "");
    assert_eq!(str_trim(""), "");
}

#[test]
fn statements_are_split_trimmed_and_non_empty() {
    assert_eq!(
        split_statements("MATCH (n) RETURN n; ;\n CREATE (a) ;"),
        vec!["MATCH (n) RETURN n".to_string(), "CREATE (a)".to_string()]
    );
    assert_eq!(split_statements("a;\nb"), vec!["a".to_string(), "b".to_string()]);
    assert!(split_statements(";;").is_empty());
    assert!(split_statements("").is_empty());
    for s in split_statements(" x ; y\u{3000};z") {
        assert!(!s.is_empty());
        assert_eq!(str_trim(&s), s);
    }
}

#[test]
fn blank_scripts() {
    assert!(is_blank(""));
    assert!(is_blank(" \n\t"));
    assert!(!is_blank(";"));
    assert!(!is_blank(" MATCH (n) "));
}

#[test]
fn bodies() {
    assert_eq!(to_serde(&empty_result()), serde(r#"{ "results": [], "summary": {} }"#));
    assert_eq!(
        to_serde(&request_body("CREATE (a); MATCH (n) RETURN n;")),
        serde(
            r#"{ "statements": [
                { "statement": "CREATE (a)" },
                { "statement": "MATCH (n) RETURN n" }
            ] }"#
        )
    );
    assert_eq!(to_serde(&request_body(" ; ")), serde(r#"{ "statements": [] }"#));
}

#[test]
fn responses_with_errors_fail() {
    let response = to_library(&serde(
        r#"{ "results": [], "errors": [
            { "code": "A", "message": "first" },
            { "code": "B" },
            { "message": "second" }
        ] }"#,
    ));
    match check_response(response) {
        Err(Neo4jError::Neo4j(m)) => assert_eq!(m, "first; second"),
        other => panic!("unexpected {other:?}"),
    }
}

#[test]
fn responses_without_errors_pass() {
    let text = r#"{ "results": [{ "data": [] }], "errors": [] }"#;
    match check_response(to_library(&serde(text))) {
        Ok(v) => assert_eq!(to_serde(&v), serde(text)),
        Err(e) => panic!("unexpected {e:?}"),
    }
    let text = r#"{ "results": [], "errors": "not a list" }"#;
    assert!(check_response(to_library(&serde(text))).is_ok());
}

#[test]
fn error_messages() {
    assert_eq!(Neo4jError::Neo4j("x".to_string()).message(), "Neo4j error: x");
    assert_eq!(Neo4jError::Http("down".to_string()).message(), "HTTP request failed: down");
    assert_eq!(Neo4jError::UnexpectedResponse.message(), "unexpected response format");
}

#[test]
fn graph_rows_skip_null_sources() {
    let response = to_library(&serde(
        r#"{ "results": [
            { "data": [
                { "row": [{ "id": "a" }, { "since": 1 }, { "id": "b" }] },
                { "row": [null, null, null] },
                { "row": [{ "id": "c" }] },
                { "meta": [] }
            ] },
            { "columns": [] },
            { "data": [ { "row": [{ "id": "d" }, null] } ] }
        ] }"#,
    ));
    let rows: Vec<Value> = graph_rows(&response).iter().map(to_serde).collect();
    assert_eq!(
        rows,
        vec![
            serde(r#"{ "source": { "id": "a" }, "relationship": { "since": 1 }, "target": { "id": "b" } }"#),
            serde(r#"{ "source": { "id": "c" }, "relationship": null, "target": null }"#),
            serde(r#"{ "source": { "id": "d" }, "relationship": null, "target": null }"#),
        ]
    );
    assert!(graph_rows(&to_library(&serde(r#"{ "results": {} }"#))).is_empty());
}

#[test]
fn joined_statements_split_back() {
    let stmts = vec!["MATCH (n) RETURN n".to_string(), "CREATE (a {x: 'y z'})".to_string()];
    assert_eq!(split_statements(&stmts.join(";")), stmts);
    assert_eq!(split_statements(&stmts.join(";\n")), stmts);
}

#[test]
fn semicolons_inside_quotes_do_not_end_statements() {
    assert_eq!(
        split_statements("CREATE (a {x: \"a;b \\\" ;\"}); RETURN 'c;d\\';'; MATCH (`x;y`) RETURN 1;"),
        vec![
            "CREATE (a {x: \"a;b \\\" ;\"})".to_string(),
            "RETURN 'c;d\\';'".to_string(),
            "MATCH (`x;y`) RETURN 1".to_string(),
        ]
    );
}

#[test]
fn statement_bodies_send_each_block_once() {
    let blocks = vec!["CREATE (a {x: \"a;b\"});".to_string(), "MATCH (n) RETURN n".to_string()];
    assert_eq!(
        to_serde(&onto_extra::neo4j::statements_body(&blocks)),
        serde(
            r#"{ "statements": [
                { "statement": "CREATE (a {x: \"a;b\"})" },
                { "statement": "MATCH (n) RETURN n" }
            ] }"#
        )
    );
}

#[test]
fn white_space_is_what_char_reports() {
    for code in 0u32..=0x10FFFF {
        if let Some(c) = char::from_u32(code) {
            assert_eq!(onto_extra::neo4j::is_whitespace(c), c.is_whitespace(), "{code:x}");
        }
    }
}
